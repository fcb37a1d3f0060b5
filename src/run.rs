//! One invocation: the requested overrides and roster edits, applied in order
//! before anything is listed or drawn.

use vstd::prelude::*;

use crate::engine::{hidden_ids, resolve_all};
use crate::roster::{names_of, opt_view, Data, DataView, UnknownMember};

verus! {

/// What the operator asked for in one invocation.
pub struct Cli {
    /// List the roster, the hidden participants and the last role holders.
    pub list: bool,
    /// Override the last chair.
    pub last_chair: Option<String>,
    /// Override the last note taker.
    pub last_note_taker: Option<String>,
    /// Participants to add.
    pub add_members: Vec<String>,
    /// Participants left out of this round only.
    pub hide_members: Vec<String>,
    /// Participants to remove.
    pub remove_members: Vec<String>,
    /// Draw a note taker as well.
    pub note_taker: bool,
    /// Draw.
    pub run: bool,
}

/// The store after the role overrides, or the first name that does not
/// resolve.
pub open spec fn overridden(d: DataView, chair: Option<Seq<char>>, note_taker: Option<Seq<char>>) -> Result<
    DataView,
    Seq<char>,
> {
    let d1 = match chair {
        Some(n) => if d.finds(n) {
            Ok(d.with_chair(n))
        } else {
            Err(n)
        },
        None => Ok(d),
    };
    match d1 {
        Ok(d1) => match note_taker {
            Some(n) => if d1.finds(n) {
                Ok(d1.with_note_taker(n))
            } else {
                Err(n)
            },
            None => Ok(d1),
        },
        Err(n) => Err(n),
    }
}

/// Applies the overrides, then the additions, then the removals, and
/// resolves the hidden participants against the resulting roster. An
/// override that names no participant stops the invocation with that name.
pub fn run(cli: &Cli, data: &mut Data) -> (r: Result<Vec<usize>, UnknownMember>)
    ensures
        match overridden(old(data)@, opt_view(cli.last_chair), opt_view(cli.last_note_taker)) {
            Ok(d) => r matches Ok(hidden) && final(data)@ == d.add_all(
                names_of(cli.add_members@),
            ).remove_all(names_of(cli.remove_members@)) && hidden@ == resolve_all(
                final(data)@,
                names_of(cli.hide_members@),
            ),
            Err(n) => r matches Err(e) && e.name@ == n,
        },
        old(data)@.wf() && r is Ok ==> final(data)@.wf(),
{
    if let Some(name) = &cli.last_chair {
        data.change_last_chair(name.as_str())?;
    }
    if let Some(name) = &cli.last_note_taker {
        data.change_last_note_taker(name.as_str())?;
    }
    data.add_members(cli.add_members.clone());
    data.remove_members(cli.remove_members.clone());
    Ok(hidden_ids(data, &cli.hide_members))
}

} // verus!
