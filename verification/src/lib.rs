use vstd::prelude::*;

pub mod decode;
pub mod records;
pub mod resolve;
pub mod snapshot;

use crate::decode::{decode_spaces, json_parses, spaces_decode_ok, spaces_of};
use crate::records::{
    SpaceError, SpaceRecord, focused_display_of, ids_of, records_valid, run_displays, visible_of,
};
use crate::resolve::{
    FocusCommand, count_occ, pos_of, resolve_targets, select_move, selected, stepped, sum_before,
};
use crate::snapshot::{DisplaySpaces, build_snapshot, displays_of};

verus! {

/// Whether a valid record set resolves: its focused display owns a run and
/// that display's visible space occurs exactly once in its space list.
pub open spec fn focus_ready(rs: Seq<SpaceRecord>) -> bool {
    &&& records_valid(rs)
    &&& run_displays(rs).contains(focused_display_of(rs).unwrap())
    &&& count_occ(
        ids_of(rs, focused_display_of(rs).unwrap()),
        visible_of(rs, focused_display_of(rs).unwrap()).unwrap(),
    ) == 1
}

/// The summed space counts of the displays in `ds` whose identifier
/// precedes `d`, each display's spaces read off the records.
pub open spec fn sum_lens_before(rs: Seq<SpaceRecord>, ds: Seq<u32>, d: u32) -> nat
    decreases ds.len(),
{
    if ds.len() == 0 {
        0
    } else {
        sum_lens_before(rs, ds.drop_last(), d) + if ds.last() < d {
            ids_of(rs, ds.last()).len()
        } else {
            0nat
        }
    }
}

/// On snapshot entries whose space lists are read off the records, the
/// snapshot-level preceding sum equals the record-level one.
proof fn lemma_sum_before_model(rs: Seq<SpaceRecord>, entries: Seq<DisplaySpaces>, d: u32)
    requires
        forall|k: int|
            0 <= k < entries.len() ==> (#[trigger] entries[k]).spaces@ == ids_of(
                rs,
                entries[k].display,
            ),
    ensures
        sum_before(entries, d) == sum_lens_before(rs, displays_of(entries), d),
    decreases entries.len(),
{
    if entries.len() == 0 {
        assert(displays_of(entries) =~= Seq::<u32>::empty());
    } else {
        assert forall|k: int|
            0 <= k < entries.drop_last().len() implies (#[trigger] entries.drop_last()[k]).spaces@
            == ids_of(rs, entries.drop_last()[k].display) by {
            assert(entries.drop_last()[k] == entries[k]);
        }
        lemma_sum_before_model(rs, entries.drop_last(), d);
        assert(displays_of(entries).drop_last() =~= displays_of(entries.drop_last()));
        assert(displays_of(entries).last() == entries.last().display);
        assert(entries[entries.len() - 1].spaces@ == ids_of(
            rs,
            entries[entries.len() - 1].display,
        ));
    }
}

/// One full invocation, from the queried text and the command-line
/// selections to the focus commands to issue: decode the records, build the
/// snapshot, resolve the move. With no selection there is nothing to do and
/// no command comes back; the text is still decoded and checked, since the
/// query precedes the selection. Success, the error kind, and each issued
/// command are pinned over the decoded records `spaces_of(text)`.
pub fn plan(text: &str, next: bool, prev: bool, cycle_to: Option<u32>) -> (r: Result<
    Vec<FocusCommand>,
    SpaceError,
>)
    ensures
        (r is Err && r->Err_0 == SpaceError::ParseSyntax) <==> !json_parses(text@),
        (r is Err && r->Err_0 == SpaceError::ParseStructure) <==> (json_parses(text@)
            && !spaces_decode_ok(text@)),
        (r is Ok) <==> (spaces_decode_ok(text@) && (if selected(next, prev, cycle_to) is None {
            records_valid(spaces_of(text@))
        } else {
            focus_ready(spaces_of(text@))
        })),
        r is Err && spaces_decode_ok(text@) ==> r->Err_0 == SpaceError::Inconsistent,
        selected(next, prev, cycle_to) is None ==> (r matches Ok(cmds) ==> cmds@.len() == 0),
        selected(next, prev, cycle_to) matches Some(mv) ==> (r matches Ok(cmds) ==> ({
            let rs = spaces_of(text@);
            let runs = run_displays(rs);
            let fd = focused_display_of(rs).unwrap();
            let vis = visible_of(rs, fd).unwrap();
            let step = stepped(pos_of(ids_of(rs, fd), vis), ids_of(rs, fd).len() as int, mv);
            &&& cmds@.len() == runs.len()
            &&& forall|k: int|
                0 <= k < runs.len() ==> {
                    &&& (#[trigger] cmds@[k]).display == runs[k]
                    &&& cmds@[k].target == sum_lens_before(rs, runs, runs[k]) + (step % (
                    ids_of(rs, runs[k]).len() as int))
                    &&& cmds@[k].target < rs.len()
                }
        })),
{
    let recs = match decode_spaces(text) {
        Ok(v) => v,
        Err(er) => return Err(er),
    };
    let config = match build_snapshot(&recs) {
        Ok(c) => c,
        Err(er) => return Err(er),
    };
    match select_move(next, prev, cycle_to) {
        None => Ok(Vec::new()),
        Some(mv) => {
            proof {
                let rs = recs@;
                let s = config.displays@;
                let runs = run_displays(rs);
                let fd = focused_display_of(rs).unwrap();
                assert(config.focused_display == fd);
                assert(displays_of(s) == runs);
                if config.has_focused() {
                    let k0 = config.focused_index();
                    assert(0 <= k0 < s.len() && s[k0].display == fd);
                    assert(displays_of(s)[k0] == fd);
                    assert(runs.contains(fd));
                }
                if runs.contains(fd) {
                    let k1 = choose|k: int| 0 <= k < runs.len() && runs[k] == fd;
                    assert(displays_of(s)[k1] == s[k1].display);
                    assert(s[k1].display == fd);
                    assert(config.has_focused());
                }
                if config.has_focused() {
                    let ci = config.focused_index();
                    assert(0 <= ci < s.len() && s[ci].display == fd);
                    assert(s[ci].spaces@ == ids_of(rs, fd));
                    assert(Some(s[ci].visible) == visible_of(rs, fd));
                    assert(config.focused_entry() == s[ci]);
                }
            }
            let res = resolve_targets(&config, mv);
            proof {
                let rs = recs@;
                let s = config.displays@;
                let runs = run_displays(rs);
                if res is Ok {
                    let cmds = res->Ok_0@;
                    assert forall|k: int| 0 <= k < runs.len() implies {
                        &&& (#[trigger] cmds[k]).display == runs[k]
                        &&& cmds[k].target == sum_lens_before(rs, runs, runs[k]) + (stepped(
                            pos_of(
                                ids_of(rs, focused_display_of(rs).unwrap()),
                                visible_of(rs, focused_display_of(rs).unwrap()).unwrap(),
                            ),
                            ids_of(rs, focused_display_of(rs).unwrap()).len() as int,
                            mv,
                        ) % (ids_of(rs, runs[k]).len() as int))
                        &&& cmds[k].target < rs.len()
                    } by {
                        assert(displays_of(s)[k] == s[k].display);
                        assert(s[k].spaces@ == ids_of(rs, s[k].display));
                        lemma_sum_before_model(rs, s, s[k].display);
                    }
                }
            }
            res
        },
    }
}

} // verus!
