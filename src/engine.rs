//! The selection engine: which positions may be drawn for a role, the draw
//! itself, and the decision taken on the operator's answer.
//!
//! Chair and note taker are drawn independently, so one participant may be
//! proposed for both roles in the same round.

use vstd::prelude::*;

use rand::Rng;

use crate::fold::identity_key;
use crate::roster::{names_of, Data, DataView};

verus! {

#[derive(PartialEq, Eq, Structural, Clone, Copy, Debug)]
pub enum Role {
    Chair,
    NoteTaker,
}

/// Why a round cannot start.
#[derive(PartialEq, Eq, Structural, Clone, Copy, Debug)]
pub enum RoundError {
    /// The roster has no participant at all.
    EmptyRoster,
    /// Every participant is hidden or held the role last time.
    NoEligibleCandidate(Role),
}

/// The operator's reply to a proposal.
#[derive(PartialEq, Eq, Structural, Clone, Copy, Debug)]
pub enum Answer {
    Yes,
    No,
    Invalid,
}

/// What to do after an answer.
#[derive(PartialEq, Eq, Structural, Clone, Copy, Debug)]
pub enum Step {
    /// The proposal was recorded; the round is over.
    Commit,
    /// Draw again.
    Redraw,
    /// Ask again, with the same proposal.
    Ask,
}

/// Roster positions proposed for the roles.
#[derive(PartialEq, Eq, Structural, Clone, Copy, Debug)]
pub struct Proposal {
    pub chair: usize,
    pub note_taker: Option<usize>,
}

/// The positions that may be drawn in this round, for each role asked for.
pub struct Round {
    pub chair_pool: Vec<usize>,
    pub note_taker_pool: Option<Vec<usize>>,
}

/// Position `k` may be drawn: it is on the roster, not hidden, and not the
/// previous holder.
pub open spec fn is_eligible(k: usize, len: nat, hidden: Seq<usize>, previous: Option<usize>) -> bool {
    k < len && !hidden.contains(k) && previous != Some(k)
}

/// The eligible positions below `len`, in increasing order.
pub open spec fn eligible(len: nat, hidden: Seq<usize>, previous: Option<usize>) -> Seq<usize>
    decreases len,
{
    if len == 0 {
        Seq::empty()
    } else {
        let rest = eligible((len - 1) as nat, hidden, previous);
        let k = (len - 1) as usize;
        if !hidden.contains(k) && previous != Some(k) {
            rest.push(k)
        } else {
            rest
        }
    }
}

/// The position of the previous holder of a role, where it resolves and is
/// not hidden.
pub open spec fn previous_position(d: DataView, holder: Option<Seq<char>>, hidden: Seq<usize>) -> Option<usize> {
    match holder {
        Some(n) => if d.finds(n) && !hidden.contains(d.position_of(n) as usize) {
            Some(d.position_of(n) as usize)
        } else {
            None
        },
        None => None,
    }
}

/// The positions that the names resolve to, in order, skipping the names
/// that do not resolve.
pub open spec fn resolve_all(d: DataView, names: Seq<Seq<char>>) -> Seq<usize>
    decreases names.len(),
{
    if names.len() == 0 {
        Seq::empty()
    } else {
        let rest = resolve_all(d, names.drop_last());
        if d.finds(names.last()) {
            rest.push(d.position_of(names.last()) as usize)
        } else {
            rest
        }
    }
}

pub open spec fn chair_pool(d: DataView, hidden: Seq<usize>) -> Seq<usize> {
    eligible(d.members.len(), hidden, previous_position(d, d.last_chair, hidden))
}

pub open spec fn note_taker_pool(d: DataView, hidden: Seq<usize>) -> Seq<usize> {
    eligible(d.members.len(), hidden, previous_position(d, d.last_note_taker, hidden))
}

/// The outcome of starting a round, as positions to draw from.
pub open spec fn round_outcome(d: DataView, hidden: Seq<usize>, note_taker: bool) -> Result<
    (Seq<usize>, Option<Seq<usize>>),
    RoundError,
> {
    if d.members.len() == 0 {
        Err(RoundError::EmptyRoster)
    } else if chair_pool(d, hidden).len() == 0 {
        Err(RoundError::NoEligibleCandidate(Role::Chair))
    } else if note_taker && note_taker_pool(d, hidden).len() == 0 {
        Err(RoundError::NoEligibleCandidate(Role::NoteTaker))
    } else {
        Ok((chair_pool(d, hidden), if note_taker { Some(note_taker_pool(d, hidden)) } else { None }))
    }
}

/// What an answer, in lower case, means: "y" or "yes", "n" or "no".
pub open spec fn answer_of(key: Seq<char>) -> Answer {
    if key == seq!['y'] || key == seq!['y', 'e', 's'] {
        Answer::Yes
    } else if key == seq!['n'] || key == seq!['n', 'o'] {
        Answer::No
    } else {
        Answer::Invalid
    }
}

/// The store after the proposal is accepted.
pub open spec fn committed(d: DataView, p: Proposal) -> DataView {
    DataView {
        last_chair: Some(d.members[p.chair as int]),
        last_note_taker: match p.note_taker {
            Some(i) => Some(d.members[i as int]),
            None => d.last_note_taker,
        },
        members: d.members,
    }
}

impl Round {
    pub open spec fn pools(&self) -> (Seq<usize>, Option<Seq<usize>>) {
        (
            self.chair_pool@,
            match self.note_taker_pool {
                Some(v) => Some(v@),
                None => None,
            },
        )
    }

    /// Every pool of the round has a position to draw.
    pub open spec fn drawable(&self) -> bool {
        self.chair_pool@.len() > 0 && (self.note_taker_pool matches Some(v) ==> v@.len() > 0)
    }
}

/// A position is in the eligible sequence exactly when it is eligible.
pub proof fn lemma_eligible_iff(len: nat, hidden: Seq<usize>, previous: Option<usize>, k: usize)
    ensures
        eligible(len, hidden, previous).contains(k) <==> is_eligible(k, len, hidden, previous),
    decreases len,
{
    if len > 0 {
        let rest = eligible((len - 1) as nat, hidden, previous);
        lemma_eligible_iff((len - 1) as nat, hidden, previous, k);
        let last = (len - 1) as usize;
        if !hidden.contains(last) && previous != Some(last) {
            assert(rest.push(last)[rest.len() as int] == last);
            if rest.push(last).contains(k) && k != last {
                let j = choose|j: int| 0 <= j < rest.push(last).len() && rest.push(last)[j] == k;
                assert(rest[j] == k);
            }
            if rest.contains(k) {
                let j = choose|j: int| 0 <= j < rest.len() && rest[j] == k;
                assert(rest.push(last)[j] == k);
            }
        }
    }
}

/// A position in a role's pool is never hidden; and where the previous
/// holder of the role resolves and is not hidden, it is not in the pool.
pub proof fn lemma_pool_excludes(d: DataView, holder: Option<Seq<char>>, hidden: Seq<usize>, k: usize)
    requires
        eligible(d.members.len(), hidden, previous_position(d, holder, hidden)).contains(k),
    ensures
        !hidden.contains(k),
        k < d.members.len(),
        (holder matches Some(n) && d.finds(n) && !hidden.contains(d.position_of(n) as usize))
            ==> k != d.position_of(holder->Some_0) as usize,
{
    lemma_eligible_iff(d.members.len(), hidden, previous_position(d, holder, hidden), k);
}

/// Whether `x` occurs in `v`.
fn holds(v: &Vec<usize>, x: usize) -> (r: bool)
    ensures
        r == v@.contains(x),
{
    let mut i: usize = 0;
    while i < v.len()
        invariant
            i <= v@.len(),
            forall|j: int| 0 <= j < i ==> v@[j] != x,
        decreases v@.len() - i,
    {
        if v[i] == x {
            assert(v@[i as int] == x);
            return true;
        }
        i += 1;
    }
    false
}

/// The eligible positions below `len`: neither hidden nor `previous`.
pub fn eligible_positions(len: usize, hidden: &Vec<usize>, previous: Option<usize>) -> (r: Vec<usize>)
    ensures
        r@ == eligible(len as nat, hidden@, previous),
        forall|k: usize| r@.contains(k) <==> is_eligible(k, len as nat, hidden@, previous),
{
    let mut r: Vec<usize> = Vec::new();
    let mut i: usize = 0;
    while i < len
        invariant
            i <= len,
            r@ == eligible(i as nat, hidden@, previous),
        decreases len - i,
    {
        let hid = holds(hidden, i);
        let was_previous = match previous {
            Some(p) => p == i,
            None => false,
        };
        if !hid && !was_previous {
            r.push(i);
        }
        i += 1;
    }
    assert forall|k: usize| r@.contains(k) <==> is_eligible(k, len as nat, hidden@, previous) by {
        lemma_eligible_iff(len as nat, hidden@, previous, k);
    }
    r
}

/// The position of the previous holder `holder` of a role, or `None` where
/// there is none, it does not resolve, or it is hidden.
pub fn previous_holder(data: &Data, holder: &Option<String>, hidden: &Vec<usize>) -> (r: Option<usize>)
    ensures
        r == previous_position(data@, crate::roster::opt_view(*holder), hidden@),
{
    match holder {
        Some(name) => match data.get_member_id(name.as_str()) {
            Some(id) => {
                proof {
                    assert(data@.position_of(name@) == id as int);
                }
                if holds(hidden, id) {
                    None
                } else {
                    Some(id)
                }
            },
            None => None,
        },
        None => None,
    }
}

/// The positions of the hidden participants, resolved against the roster
/// in the order given; a name that does not resolve is skipped.
pub fn hidden_ids(data: &Data, names: &Vec<String>) -> (r: Vec<usize>)
    ensures
        r@ == resolve_all(data@, names_of(names@)),
{
    let ghost all = names_of(names@);
    let mut r: Vec<usize> = Vec::new();
    let mut i: usize = 0;
    while i < names.len()
        invariant
            i <= names@.len(),
            all == names_of(names@),
            r@ == resolve_all(data@, all.take(i as int)),
        decreases names@.len() - i,
    {
        let name = names[i].as_str();
        proof {
            assert(all.take(i + 1).drop_last() =~= all.take(i as int));
            assert(all.take(i + 1).last() == name@);
        }
        if let Some(id) = data.get_member_id(name) {
            proof {
                assert(data@.position_of(name@) == id as int);
            }
            r.push(id);
        }
        i += 1;
    }
    assert(all.take(i as int) =~= all);
    r
}

/// Starts a round: fails on an empty roster, and on a role asked for whose
/// eligible set is empty, before anything is drawn.
pub fn start_round(data: &Data, hidden: &Vec<usize>, note_taker: bool) -> (r: Result<Round, RoundError>)
    ensures
        match round_outcome(data@, hidden@, note_taker) {
            Ok(pools) => r matches Ok(round) && round.pools() == pools && round.drawable(),
            Err(e) => r == Err::<Round, RoundError>(e),
        },
        r matches Ok(round) ==> forall|k: usize|
            #[trigger] round.chair_pool@.contains(k) ==> k < data@.members.len(),
        r matches Ok(round) ==> (round.note_taker_pool matches Some(v) ==> forall|k: usize|
            #[trigger] v@.contains(k) ==> k < data@.members.len()),
{
    let len = data.members.len();
    if len == 0 {
        return Err(RoundError::EmptyRoster);
    }
    let previous_chair = previous_holder(data, &data.last_chair, hidden);
    let chair_pool = eligible_positions(len, hidden, previous_chair);
    if chair_pool.len() == 0 {
        return Err(RoundError::NoEligibleCandidate(Role::Chair));
    }
    let note_taker_pool = if note_taker {
        let previous_note_taker = previous_holder(data, &data.last_note_taker, hidden);
        let pool = eligible_positions(len, hidden, previous_note_taker);
        if pool.len() == 0 {
            return Err(RoundError::NoEligibleCandidate(Role::NoteTaker));
        }
        Some(pool)
    } else {
        None
    };
    Ok(Round { chair_pool, note_taker_pool })
}

/// Relies on `rand::thread_rng` and `Rng::gen_range`: a value drawn from
/// `0..n`, which is not empty.
#[verifier::external_body]
fn random_below(n: usize) -> (r: usize)
    requires
        n > 0,
    ensures
        r < n,
{
    rand::thread_rng().gen_range(0..n)
}

/// One position drawn from a pool that is not empty.
pub fn draw(pool: &Vec<usize>) -> (r: usize)
    requires
        pool@.len() > 0,
    ensures
        pool@.contains(r),
{
    let i = random_below(pool.len());
    assert(pool@[i as int] == pool[i as int]);
    pool[i]
}

/// Draws a candidate for each role of the round.
pub fn propose(round: &Round) -> (r: Proposal)
    requires
        round.drawable(),
    ensures
        round.chair_pool@.contains(r.chair),
        r.note_taker is Some <==> round.note_taker_pool is Some,
        r.note_taker matches Some(i) ==> (round.note_taker_pool matches Some(v) && v@.contains(i)),
{
    let chair = draw(&round.chair_pool);
    let note_taker = match &round.note_taker_pool {
        Some(pool) => Some(draw(pool)),
        None => None,
    };
    Proposal { chair, note_taker }
}

/// Reads an answer to a proposal, ignoring case.
pub fn parse_answer(line: &str) -> (r: Answer)
    ensures
        r == answer_of(crate::fold::lower_of(line@)),
{
    let key = identity_key(line);
    answer_of_key(key.as_str())
}

/// Reads an answer already in lower case.
pub fn answer_of_key(key: &str) -> (r: Answer)
    ensures
        r == answer_of(key@),
{
    let n = key.unicode_len();
    if n == 1 {
        let c = key.get_char(0);
        if c == 'y' {
            assert(key@ =~= seq!['y']);
            return Answer::Yes;
        } else if c == 'n' {
            assert(key@ =~= seq!['n']);
            return Answer::No;
        }
    } else if n == 2 {
        if key.get_char(0) == 'n' && key.get_char(1) == 'o' {
            assert(key@ =~= seq!['n', 'o']);
            return Answer::No;
        }
    } else if n == 3 {
        if key.get_char(0) == 'y' && key.get_char(1) == 'e' && key.get_char(2) == 's' {
            assert(key@ =~= seq!['y', 'e', 's']);
            return Answer::Yes;
        }
    }
    proof {
        if n == 1 {
            assert(key@[0] != seq!['y'][0]);
            assert(key@[0] != seq!['n'][0]);
        }
    }
    Answer::Invalid
}

/// Acts on the operator's answer: on yes the proposal is recorded, on no
/// it is dropped for a new draw, otherwise the question is asked again.
pub fn decide(data: &mut Data, proposal: &Proposal, answer: Answer) -> (r: Step)
    requires
        proposal.chair < old(data)@.members.len(),
        proposal.note_taker matches Some(i) ==> i < old(data)@.members.len(),
    ensures
        answer == Answer::Yes ==> r == Step::Commit && final(data)@ == committed(old(data)@, *proposal),
        answer == Answer::No ==> r == Step::Redraw && final(data)@ == old(data)@,
        answer == Answer::Invalid ==> r == Step::Ask && final(data)@ == old(data)@,
{
    match answer {
        Answer::Yes => {
            let chair = data.members[proposal.chair].clone();
            data.last_chair = Some(chair);
            if let Some(i) = proposal.note_taker {
                let note_taker = data.members[i].clone();
                data.last_note_taker = Some(note_taker);
            }
            Step::Commit
        },
        Answer::No => Step::Redraw,
        Answer::Invalid => Step::Ask,
    }
}

} // verus!
