use vstd::prelude::*;

use crate::records::{
    SpaceRecord, SpaceError, focused_count, focused_display_of, ids_of, visible_count, visible_of,
    run_displays, records_valid, lemma_take_step, lemma_focused_some,
    lemma_run_prefix, lemma_no_reappear, lemma_stable_after, lemma_prefix_index, lemma_absent,
};

verus! {

/// One display of the snapshot: its identifier, the identifiers of its
/// spaces in order of appearance, and the identifier of its visible space.
#[derive(Debug, PartialEq, Eq)]
pub struct DisplaySpaces {
    pub display: u32,
    pub spaces: Vec<u32>,
    pub visible: u32,
}

/// The configuration snapshot of one query: the displays with their ordered
/// space lists and visible spaces, and the display holding input focus.
/// It is rebuilt on every invocation and never outlives one run.
#[derive(Debug, PartialEq, Eq)]
pub struct SpaceConfig {
    pub displays: Vec<DisplaySpaces>,
    pub focused_display: u32,
}

/// The display identifiers of the snapshot entries, in order.
pub open spec fn displays_of(s: Seq<DisplaySpaces>) -> Seq<u32> {
    s.map_values(|e: DisplaySpaces| e.display)
}

/// The total number of spaces over all entries.
pub open spec fn total_len(s: Seq<DisplaySpaces>) -> nat
    decreases s.len(),
{
    if s.len() == 0 {
        0
    } else {
        total_len(s.drop_last()) + s.last().spaces@.len()
    }
}

impl SpaceConfig {
    /// Well-formedness: display identifiers are unique, every display owns
    /// at least one space, and the total space count fits a machine word.
    pub open spec fn wf(self) -> bool {
        &&& displays_of(self.displays@).no_duplicates()
        &&& forall|k: int|
            0 <= k < self.displays@.len() ==> (#[trigger] self.displays@[k]).spaces@.len() >= 1
        &&& total_len(self.displays@) <= usize::MAX
    }
}

/// Appending an entry appends its display identifier.
pub proof fn lemma_displays_push(s: Seq<DisplaySpaces>, e: DisplaySpaces)
    ensures
        displays_of(s.push(e)) == displays_of(s).push(e.display),
{
    assert(displays_of(s.push(e)) =~= displays_of(s).push(e.display));
}

/// Appending an entry adds its space count to the total.
pub proof fn lemma_total_push(s: Seq<DisplaySpaces>, e: DisplaySpaces)
    ensures
        total_len(s.push(e)) == total_len(s) + e.spaces@.len(),
{
    assert(s.push(e).drop_last() =~= s);
}

/// Appending a fresh element keeps a sequence duplicate-free.
pub proof fn lemma_nodup_push(s: Seq<u32>, x: u32)
    requires
        s.no_duplicates(),
        !s.contains(x),
    ensures
        s.push(x).no_duplicates(),
{
    assert forall|i: int, j: int|
        0 <= i < s.push(x).len() && 0 <= j < s.push(x).len() && i != j implies s.push(x)[i] != s.push(
        x,
    )[j] by {
        if i == s.len() {
            if s.push(x)[j] == x {
                assert(s[j] == x);
            }
        } else if j == s.len() {
            if s.push(x)[i] == x {
                assert(s[i] == x);
            }
        }
    }
}

/// Whether some snapshot entry belongs to display `d`.
fn contains_display(entries: &Vec<DisplaySpaces>, d: u32) -> (b: bool)
    ensures
        b == displays_of(entries@).contains(d),
{
    let mut j: usize = 0;
    while j < entries.len()
        invariant
            j <= entries@.len(),
            forall|m: int| 0 <= m < j ==> (#[trigger] entries@[m]).display != d,
        decreases entries@.len() - j,
    {
        if entries[j].display == d {
            assert(displays_of(entries@)[j as int] == d);
            return true;
        }
        j = j + 1;
    }
    assert forall|m: int| 0 <= m < displays_of(entries@).len() implies displays_of(entries@)[m]
        != d by {
        assert(entries@[m].display != d);
    }
    false
}

/// Builds the configuration snapshot from the decoded records.
///
/// The snapshot groups the records by display; records of one display must
/// be contiguous in the input, as the window manager reports them. It exists
/// exactly when the records are valid: one record holds focus, runs of equal
/// displays never repeat, and each display shows exactly one visible space.
/// The per-display space lists reproduce the order of appearance of the
/// source records.
#[verifier::loop_isolation(false)]
pub fn build_snapshot(records: &Vec<SpaceRecord>) -> (r: Result<SpaceConfig, SpaceError>)
    ensures
        (r is Ok) <==> records_valid(records@),
        r matches Ok(c) ==> ({
            &&& c.wf()
            &&& Some(c.focused_display) == focused_display_of(records@)
            &&& displays_of(c.displays@) == run_displays(records@)
            &&& total_len(c.displays@) == records@.len()
            &&& forall|k: int|
                0 <= k < c.displays@.len() ==> {
                    &&& (#[trigger] c.displays@[k]).spaces@ == ids_of(
                        records@,
                        c.displays@[k].display,
                    )
                    &&& Some(c.displays@[k].visible) == visible_of(
                        records@,
                        c.displays@[k].display,
                    )
                    &&& visible_count(records@, c.displays@[k].display) == 1
                }
        }),
        r matches Err(er) ==> er == SpaceError::Inconsistent,
{
    let n = records.len();

    // First pass: exactly one record may claim input focus.
    let mut count: usize = 0;
    let mut focused: Option<u32> = None;
    let mut i: usize = 0;
    while i < n
        invariant
            i <= n,
            count <= i,
            count == focused_count(records@.take(i as int)),
            focused == focused_display_of(records@.take(i as int)),
        decreases n - i,
    {
        proof {
            lemma_take_step(records@, i as int);
        }
        let r = records[i];
        if r.has_focus {
            count = count + 1;
            focused = Some(r.display);
        }
        i = i + 1;
    }
    proof {
        assert(records@.take(n as int) =~= records@);
    }
    if count != 1 {
        return Err(SpaceError::Inconsistent);
    }
    let fd: u32 = match focused {
        Some(d) => d,
        None => {
            proof {
                lemma_focused_some(records@);
                assert(false);
            }
            return Err(SpaceError::Inconsistent);
        },
    };

    // One focused record exists, so the sequence is not empty.
    proof {
        assert(records@.take(0).len() == 0);
        assert(focused_count(records@.take(0)) == 0);
    }
    assert(n >= 1);

    // Second pass: group contiguous runs of one display into entries.
    let mut entries: Vec<DisplaySpaces> = Vec::new();
    let r0 = records[0];
    let mut cur_display: u32 = r0.display;
    let mut cur_ids: Vec<u32> = Vec::new();
    cur_ids.push(r0.id);
    let mut cur_vis: u32 = 0;
    let mut cur_vis_count: usize = 0;
    if r0.is_visible {
        cur_vis = r0.id;
        cur_vis_count = 1;
    }
    proof {
        lemma_take_step(records@, 0);
        assert(run_displays(records@.take(0)) =~= Seq::<u32>::empty());
        assert(displays_of(Seq::<DisplaySpaces>::empty()) =~= Seq::<u32>::empty());
        assert(run_displays(records@.take(1)) =~= Seq::<u32>::empty().push(r0.display));
        assert(ids_of(records@.take(0), r0.display) =~= Seq::<u32>::empty());
        assert(visible_count(records@.take(0), r0.display) == 0);
        assert(visible_of(records@.take(0), r0.display) is None);
        assert(ids_of(records@.take(1), r0.display) =~= Seq::<u32>::empty().push(r0.id));
        assert(cur_ids@ =~= Seq::<u32>::empty().push(r0.id));
    }
    let mut i: usize = 1;
    while i < n
        invariant
            1 <= i <= n,
            cur_vis_count <= i,
            run_displays(records@.take(i as int)) == displays_of(entries@).push(cur_display),
            displays_of(entries@).no_duplicates(),
            !displays_of(entries@).contains(cur_display),
            forall|k: int|
                0 <= k < entries@.len() ==> {
                    &&& (#[trigger] entries@[k]).spaces@ == ids_of(
                        records@.take(i as int),
                        entries@[k].display,
                    )
                    &&& entries@[k].spaces@.len() >= 1
                    &&& visible_count(records@.take(i as int), entries@[k].display) == 1
                    &&& Some(entries@[k].visible) == visible_of(
                        records@.take(i as int),
                        entries@[k].display,
                    )
                },
            cur_ids@ == ids_of(records@.take(i as int), cur_display),
            cur_ids@.len() >= 1,
            cur_vis_count == visible_count(records@.take(i as int), cur_display),
            cur_vis_count >= 1 ==> Some(cur_vis) == visible_of(
                records@.take(i as int),
                cur_display,
            ),
            total_len(entries@) + cur_ids@.len() == i,
        decreases n - i,
    {
        proof {
            lemma_take_step(records@, i as int);
        }
        let r = records[i];
        if r.display == cur_display {
            cur_ids.push(r.id);
            if r.is_visible {
                cur_vis = r.id;
                cur_vis_count = cur_vis_count + 1;
            }
        } else {
            if cur_vis_count != 1 {
                proof {
                    let rs = records@;
                    let ii = i as int;
                    let p = run_displays(rs.take(ii));
                    let pi: int = p.len() as int - 1;
                    lemma_run_prefix(rs, ii);
                    lemma_prefix_index(p, run_displays(rs), pi);
                    assert(run_displays(rs)[pi] == cur_display);
                    if run_displays(rs).no_duplicates() {
                        lemma_no_reappear(rs, ii, cur_display);
                        lemma_stable_after(rs, ii, cur_display);
                        assert(visible_count(rs, run_displays(rs)[pi]) != 1);
                    }
                    assert(!records_valid(rs));
                }
                return Err(SpaceError::Inconsistent);
            }
            let entry = DisplaySpaces { display: cur_display, spaces: cur_ids, visible: cur_vis };
            proof {
                lemma_displays_push(entries@, entry);
                lemma_total_push(entries@, entry);
                lemma_nodup_push(displays_of(entries@), cur_display);
            }
            entries.push(entry);
            if contains_display(&entries, r.display) {
                proof {
                    let rs = records@;
                    let ii = i as int;
                    let p = run_displays(rs.take(ii));
                    let q = run_displays(rs.take(ii + 1));
                    assert(q == p.push(rs[ii].display));
                    let j = choose|j: int| 0 <= j < p.len() && p[j] == rs[ii].display;
                    assert(q[j] == rs[ii].display);
                    let last: int = q.len() as int - 1;
                    assert(q[last] == rs[ii].display);
                    lemma_run_prefix(rs, ii + 1);
                    lemma_prefix_index(q, run_displays(rs), j);
                    lemma_prefix_index(q, run_displays(rs), last);
                    assert(run_displays(rs)[j] == rs[ii].display);
                    assert(run_displays(rs)[last] == rs[ii].display);
                    assert(!run_displays(rs).no_duplicates());
                    assert(!records_valid(rs));
                }
                return Err(SpaceError::Inconsistent);
            }
            cur_display = r.display;
            cur_ids = Vec::new();
            cur_ids.push(r.id);
            cur_vis_count = 0;
            if r.is_visible {
                cur_vis = r.id;
                cur_vis_count = 1;
            }
            proof {
                let rs = records@;
                let ii = i as int;
                assert(!run_displays(rs.take(ii)).contains(rs[ii].display));
                lemma_absent(rs.take(ii), rs[ii].display);
                assert(cur_ids@ =~= Seq::<u32>::empty().push(r.id));
                assert(ids_of(rs.take(ii + 1), r.display) =~= Seq::<u32>::empty().push(r.id));
            }
        }
        proof {
            let rs = records@;
            let ii = i as int;
            assert forall|k: int| 0 <= k < entries@.len() implies {
                &&& (#[trigger] entries@[k]).spaces@ == ids_of(rs.take(ii + 1), entries@[k].display)
                &&& visible_count(rs.take(ii + 1), entries@[k].display) == 1
                &&& Some(entries@[k].visible) == visible_of(rs.take(ii + 1), entries@[k].display)
            } by {
                assert(displays_of(entries@)[k] == entries@[k].display);
                assert(entries@[k].display != rs[ii].display);
            }
        }
        i = i + 1;
    }
    proof {
        assert(records@.take(n as int) =~= records@);
    }
    if cur_vis_count != 1 {
        proof {
            let rs = records@;
            let p = run_displays(rs);
            let pi: int = p.len() as int - 1;
            assert(p[pi] == cur_display);
            assert(visible_count(rs, run_displays(rs)[pi]) != 1);
            assert(!records_valid(rs));
        }
        return Err(SpaceError::Inconsistent);
    }
    let entry = DisplaySpaces { display: cur_display, spaces: cur_ids, visible: cur_vis };
    proof {
        lemma_displays_push(entries@, entry);
        lemma_total_push(entries@, entry);
        lemma_nodup_push(displays_of(entries@), cur_display);
    }
    entries.push(entry);
    proof {
        let rs = records@;
        let w = run_displays(rs);
        assert forall|k: int| 0 <= k < w.len() implies visible_count(rs, #[trigger] w[k]) == 1 by {
            assert(w[k] == displays_of(entries@)[k]);
            assert(entries@[k].display == w[k]);
        }
        assert(records_valid(rs));
    }
    Ok(SpaceConfig { displays: entries, focused_display: fd })
}

} // verus!
