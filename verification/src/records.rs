use vstd::prelude::*;

verus! {

/// One space as reported by the window manager: its identifier, the display
/// that owns it, and whether it holds input focus or is the one shown on its
/// display.
#[derive(Clone, Copy, Debug, PartialEq, Eq, Structural)]
pub struct SpaceRecord {
    pub id: u32,
    pub display: u32,
    pub has_focus: bool,
    pub is_visible: bool,
}

/// The requested change of the focused space: the space after the visible
/// one, the space before it, or an explicit zero-based position.
#[derive(Clone, Copy, Debug, PartialEq, Eq, Structural)]
pub enum SpaceMove {
    Next,
    Previous,
    Space(u32),
}

/// Everything this library can report as a failure: the queried text was not
/// a JSON document, the document did not have the expected shape, or the
/// records break a consistency invariant (focus or visibility cardinality,
/// a missing or ambiguous lookup).
#[derive(Clone, Copy, Debug, PartialEq, Eq, Structural)]
pub enum SpaceError {
    ParseSyntax,
    ParseStructure,
    Inconsistent,
}

/// How many records of `rs` claim input focus.
pub open spec fn focused_count(rs: Seq<SpaceRecord>) -> nat
    decreases rs.len(),
{
    if rs.len() == 0 {
        0
    } else {
        focused_count(rs.drop_last()) + if rs.last().has_focus {
            1nat
        } else {
            0nat
        }
    }
}

/// The display of the record that claims input focus; when several do, the
/// last one counts (with `focused_count == 1` it is the only one).
pub open spec fn focused_display_of(rs: Seq<SpaceRecord>) -> Option<u32>
    decreases rs.len(),
{
    if rs.len() == 0 {
        None
    } else if rs.last().has_focus {
        Some(rs.last().display)
    } else {
        focused_display_of(rs.drop_last())
    }
}

/// The space identifiers of display `d`, in their order of appearance in `rs`.
pub open spec fn ids_of(rs: Seq<SpaceRecord>, d: u32) -> Seq<u32>
    decreases rs.len(),
{
    if rs.len() == 0 {
        Seq::empty()
    } else if rs.last().display == d {
        ids_of(rs.drop_last(), d).push(rs.last().id)
    } else {
        ids_of(rs.drop_last(), d)
    }
}

/// How many records of display `d` are marked visible.
pub open spec fn visible_count(rs: Seq<SpaceRecord>, d: u32) -> nat
    decreases rs.len(),
{
    if rs.len() == 0 {
        0
    } else {
        visible_count(rs.drop_last(), d) + if rs.last().display == d && rs.last().is_visible {
            1nat
        } else {
            0nat
        }
    }
}

/// The identifier of the visible space of display `d`; when several records
/// are marked visible, the last one counts (with `visible_count == 1` it is
/// the only one).
pub open spec fn visible_of(rs: Seq<SpaceRecord>, d: u32) -> Option<u32>
    decreases rs.len(),
{
    if rs.len() == 0 {
        None
    } else if rs.last().display == d && rs.last().is_visible {
        Some(rs.last().id)
    } else {
        visible_of(rs.drop_last(), d)
    }
}

/// The display identifiers of the maximal runs of equal displays in `rs`,
/// one per run, in order. Records of one display are contiguous in `rs`
/// exactly when this sequence has no duplicates.
pub open spec fn run_displays(rs: Seq<SpaceRecord>) -> Seq<u32>
    decreases rs.len(),
{
    if rs.len() == 0 {
        Seq::empty()
    } else {
        let p = run_displays(rs.drop_last());
        if p.len() > 0 && p.last() == rs.last().display {
            p
        } else {
            p.push(rs.last().display)
        }
    }
}

/// A record set is valid when exactly one record holds focus, the records of
/// each display are contiguous, and each display has exactly one visible
/// space.
pub open spec fn records_valid(rs: Seq<SpaceRecord>) -> bool {
    &&& focused_count(rs) == 1
    &&& run_displays(rs).no_duplicates()
    &&& forall|k: int|
        0 <= k < run_displays(rs).len() ==> visible_count(rs, #[trigger] run_displays(rs)[k]) == 1
}

/// Taking one more element appends exactly `rs[i]`: the step that relates a
/// forward scan to recursive definitions over `drop_last`.
pub proof fn lemma_take_step<A>(rs: Seq<A>, i: int)
    requires
        0 <= i < rs.len(),
    ensures
        rs.take(i + 1).drop_last() == rs.take(i),
        rs.take(i + 1).last() == rs[i],
        rs.take(i + 1).len() == i + 1,
{
    assert(rs.take(i + 1).drop_last() =~= rs.take(i));
}

/// When some record claims focus, a focused display exists.
pub proof fn lemma_focused_some(rs: Seq<SpaceRecord>)
    requires
        focused_count(rs) >= 1,
    ensures
        focused_display_of(rs) is Some,
    decreases rs.len(),
{
    if rs.len() > 0 && !rs.last().has_focus {
        lemma_focused_some(rs.drop_last());
    }
}

/// A non-empty record sequence ends in a run of its last record's display.
pub proof fn lemma_run_last(rs: Seq<SpaceRecord>)
    requires
        rs.len() >= 1,
    ensures
        run_displays(rs).len() >= 1,
        run_displays(rs).last() == rs.last().display,
{
}

/// Prefixes are transitive.
pub proof fn lemma_prefix_trans(a: Seq<u32>, b: Seq<u32>, c: Seq<u32>)
    requires
        a.is_prefix_of(b),
        b.is_prefix_of(c),
    ensures
        a.is_prefix_of(c),
{
    assert forall|m: int| 0 <= m < a.len() implies a[m] == c[m] by {
        assert(a[m] == b[m]);
    }
    assert(a =~= c.subrange(0, a.len() as int));
}

/// A prefix agrees with the full sequence on every index it covers.
pub proof fn lemma_prefix_index(a: Seq<u32>, b: Seq<u32>, i: int)
    requires
        a.is_prefix_of(b),
        0 <= i < a.len(),
    ensures
        b[i] == a[i],
{
    assert(b.subrange(0, a.len() as int)[i] == b[i]);
}

/// The runs of a prefix of `rs` are a prefix of the runs of `rs`.
pub proof fn lemma_run_prefix(rs: Seq<SpaceRecord>, i: int)
    requires
        0 <= i <= rs.len(),
    ensures
        run_displays(rs.take(i)).is_prefix_of(run_displays(rs)),
    decreases rs.len() - i,
{
    let p = run_displays(rs.take(i));
    if i == rs.len() {
        assert(rs.take(i) =~= rs);
        assert(p =~= run_displays(rs).subrange(0, p.len() as int));
    } else {
        lemma_take_step(rs, i);
        let q = run_displays(rs.take(i + 1));
        assert(p.is_prefix_of(q)) by {
            if p.len() > 0 && p.last() == rs[i].display {
                assert(q == p);
                assert(p =~= q.subrange(0, p.len() as int));
            } else {
                assert(q == p.push(rs[i].display));
                assert(p =~= q.subrange(0, p.len() as int));
            }
        }
        lemma_run_prefix(rs, i + 1);
        lemma_prefix_trans(p, q, run_displays(rs));
    }
}

/// Once a run of display `d` has closed (the next record belongs to another
/// display), `d` cannot reappear without duplicating a run.
pub proof fn lemma_no_reappear(rs: Seq<SpaceRecord>, i: int, d: u32)
    requires
        0 < i < rs.len(),
        run_displays(rs.take(i)).len() >= 1,
        run_displays(rs.take(i)).last() == d,
        rs[i].display != d,
        run_displays(rs).no_duplicates(),
    ensures
        forall|m: int| i <= m < rs.len() ==> rs[m].display != d,
{
    let p = run_displays(rs.take(i));
    let pi: int = p.len() as int - 1;
    assert forall|m: int| i <= m < rs.len() implies rs[m].display != d by {
        if rs[m].display == d {
            lemma_take_step(rs, i);
            let q1 = run_displays(rs.take(i + 1));
            assert(q1 == p.push(rs[i].display));
            assert(q1[pi] == d);
            lemma_take_step(rs, m);
            let qm = run_displays(rs.take(m + 1));
            lemma_run_last(rs.take(m + 1));
            assert(qm.last() == d);
            assert(rs.take(m + 1).take(i + 1) =~= rs.take(i + 1));
            lemma_run_prefix(rs.take(m + 1), i + 1);
            assert(q1.is_prefix_of(qm));
            assert(qm[pi] == d);
            assert(qm.len() >= q1.len());
            let last: int = qm.len() as int - 1;
            assert(pi < last);
            lemma_run_prefix(rs, m + 1);
            let w = run_displays(rs);
            assert(w[pi] == d);
            assert(w[last] == d);
            assert(false);
        }
    }
}

/// Records at positions `i` and beyond that belong to other displays do not
/// change what is derived for display `d`.
pub proof fn lemma_stable_after(rs: Seq<SpaceRecord>, i: int, d: u32)
    requires
        0 <= i <= rs.len(),
        forall|m: int| i <= m < rs.len() ==> rs[m].display != d,
    ensures
        ids_of(rs, d) == ids_of(rs.take(i), d),
        visible_count(rs, d) == visible_count(rs.take(i), d),
        visible_of(rs, d) == visible_of(rs.take(i), d),
    decreases rs.len() - i,
{
    if i == rs.len() {
        assert(rs.take(i) =~= rs);
    } else {
        lemma_take_step(rs, i);
        lemma_stable_after(rs, i + 1, d);
    }
}

/// A display that owns no run owns no records at all.
pub proof fn lemma_absent(rs: Seq<SpaceRecord>, d: u32)
    requires
        !run_displays(rs).contains(d),
    ensures
        ids_of(rs, d) == Seq::<u32>::empty(),
        visible_count(rs, d) == 0,
        visible_of(rs, d) is None,
    decreases rs.len(),
{
    if rs.len() > 0 {
        lemma_run_last(rs);
        let w = run_displays(rs);
        assert(rs.last().display != d) by {
            if rs.last().display == d {
                assert(w[w.len() as int - 1] == d);
            }
        }
        let p = run_displays(rs.drop_last());
        assert(!p.contains(d)) by {
            if p.contains(d) {
                let j = choose|j: int| 0 <= j < p.len() && p[j] == d;
                assert(w[j] == d);
            }
        }
        lemma_absent(rs.drop_last(), d);
    }
}

} // verus!
