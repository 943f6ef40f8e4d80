use vstd::prelude::*;

use crate::records::{SpaceMove, SpaceError, lemma_take_step};
use crate::snapshot::{DisplaySpaces, SpaceConfig, displays_of, total_len};

verus! {

/// One focus command to issue: the display it concerns and the zero-based
/// absolute target index handed to the window manager (which counts from
/// one).
#[derive(Clone, Copy, Debug, PartialEq, Eq, Structural)]
pub struct FocusCommand {
    pub display: u32,
    pub target: usize,
}

/// How often `x` occurs in `s`.
pub open spec fn count_occ(s: Seq<u32>, x: u32) -> nat
    decreases s.len(),
{
    if s.len() == 0 {
        0
    } else {
        count_occ(s.drop_last(), x) + if s.last() == x {
            1nat
        } else {
            0nat
        }
    }
}

/// The position of `x` in `s`; meaningful when `x` occurs exactly once.
pub open spec fn pos_of(s: Seq<u32>, x: u32) -> int {
    choose|j: int| 0 <= j < s.len() && s[j] == x
}

/// The new position derived from the current one: one further for Next, one
/// back for Previous — wrapping to the end at position zero, so cycling
/// backwards never underflows — or the literally requested index.
pub open spec fn stepped(pos: int, len: int, mv: SpaceMove) -> int {
    match mv {
        SpaceMove::Next => pos + 1,
        SpaceMove::Previous => if pos == 0 {
            len - 1
        } else {
            pos - 1
        },
        SpaceMove::Space(s) => s as int,
    }
}

/// The summed space counts of the displays whose identifier precedes `d`.
pub open spec fn sum_before(s: Seq<DisplaySpaces>, d: u32) -> nat
    decreases s.len(),
{
    if s.len() == 0 {
        0
    } else {
        sum_before(s.drop_last(), d) + if s.last().display < d {
            s.last().spaces@.len()
        } else {
            0nat
        }
    }
}

impl SpaceConfig {
    /// Whether some entry belongs to the focused display.
    pub open spec fn has_focused(self) -> bool {
        exists|k: int|
            0 <= k < self.displays@.len() && (#[trigger] self.displays@[k]).display
                == self.focused_display
    }

    /// The index of the focused display's entry; meaningful under `wf` and
    /// `has_focused`.
    pub open spec fn focused_index(self) -> int {
        choose|k: int|
            0 <= k < self.displays@.len() && (#[trigger] self.displays@[k]).display
                == self.focused_display
    }

    /// The focused display's entry.
    pub open spec fn focused_entry(self) -> DisplaySpaces {
        self.displays@[self.focused_index()]
    }
}

/// Occurring elements are counted.
proof fn lemma_count_pos(s: Seq<u32>, x: u32, i: int)
    requires
        0 <= i < s.len(),
        s[i] == x,
    ensures
        count_occ(s, x) >= 1,
    decreases s.len(),
{
    if i < s.len() - 1 {
        lemma_count_pos(s.drop_last(), x, i);
    }
}

/// A count of zero means no occurrence at all.
proof fn lemma_count_zero(s: Seq<u32>, x: u32)
    ensures
        (count_occ(s, x) == 0) <==> (forall|j: int| 0 <= j < s.len() ==> s[j] != x),
    decreases s.len(),
{
    if s.len() > 0 {
        lemma_count_zero(s.drop_last(), x);
        if count_occ(s, x) == 0 {
            assert forall|j: int| 0 <= j < s.len() implies s[j] != x by {
                if j < s.len() - 1 {
                    assert(s.drop_last()[j] != x);
                } else {
                    assert(s.last() == s[j]);
                }
            }
        }
        if forall|j: int| 0 <= j < s.len() ==> s[j] != x {
            assert(count_occ(s.drop_last(), x) == 0) by {
                assert forall|j: int| 0 <= j < s.drop_last().len() implies s.drop_last()[j]
                    != x by {
                    assert(s.drop_last()[j] == s[j]);
                }
            }
            assert(s.last() == s[s.len() - 1]);
        }
    }
}

/// With a count of one, the occurrence at `i` is the only one, and it is
/// the position of `x`.
proof fn lemma_count_unique(s: Seq<u32>, x: u32, i: int)
    requires
        count_occ(s, x) == 1,
        0 <= i < s.len(),
        s[i] == x,
    ensures
        forall|j: int| 0 <= j < s.len() && j != i ==> s[j] != x,
        pos_of(s, x) == i,
    decreases s.len(),
{
    if i == s.len() - 1 {
        assert(s.last() == x);
        lemma_count_zero(s.drop_last(), x);
        assert forall|j: int| 0 <= j < s.len() && j != i implies s[j] != x by {
            assert(s.drop_last()[j] != x);
        }
    } else {
        assert(s.drop_last()[i] == s[i]);
        lemma_count_pos(s.drop_last(), x, i);
        assert(s.last() != x);
        lemma_count_unique(s.drop_last(), x, i);
        assert forall|j: int| 0 <= j < s.len() && j != i implies s[j] != x by {
            if j < s.len() - 1 {
                assert(s.drop_last()[j] != x);
            } else {
                assert(s.last() == s[j]);
            }
        }
    }
    assert(exists|j: int| 0 <= j < s.len() && s[j] == x) by {
        assert(0 <= i < s.len() && s[i] == x);
    }
    let p = pos_of(s, x);
    assert(0 <= p < s.len() && s[p] == x);
    if p != i {
        assert(s[p] != x);
    }
}

/// Summed space counts never exceed the total.
proof fn lemma_sum_before_le_total(s: Seq<DisplaySpaces>, d: u32)
    ensures
        sum_before(s, d) <= total_len(s),
    decreases s.len(),
{
    if s.len() > 0 {
        lemma_sum_before_le_total(s.drop_last(), d);
    }
}

/// Prefix totals never exceed the total.
proof fn lemma_total_take_le(s: Seq<DisplaySpaces>, i: int)
    requires
        0 <= i <= s.len(),
    ensures
        total_len(s.take(i)) <= total_len(s),
    decreases s.len() - i,
{
    if i == s.len() {
        assert(s.take(i) =~= s);
    } else {
        lemma_take_step(s, i);
        lemma_total_take_le(s, i + 1);
    }
}

/// The spaces preceding entry `k`'s display together with that entry's own
/// spaces fit within the total: its targets stay in range.
proof fn lemma_sum_before_bound(s: Seq<DisplaySpaces>, k: int)
    requires
        0 <= k < s.len(),
    ensures
        sum_before(s, s[k].display) + s[k].spaces@.len() <= total_len(s),
    decreases s.len(),
{
    if k == s.len() - 1 {
        lemma_sum_before_le_total(s.drop_last(), s[k].display);
    } else {
        lemma_sum_before_bound(s.drop_last(), k);
    }
}

/// The position of `visible` within `spaces`, required to be unique: zero or
/// several occurrences are a configuration-consistency error.
fn visible_position(spaces: &Vec<u32>, visible: u32) -> (r: Result<usize, SpaceError>)
    ensures
        (r is Ok) <==> count_occ(spaces@, visible) == 1,
        r matches Ok(i) ==> i < spaces@.len() && spaces@[i as int] == visible && i == pos_of(
            spaces@,
            visible,
        ),
        r matches Err(er) ==> er == SpaceError::Inconsistent,
{
    let mut cnt: usize = 0;
    let mut first: usize = 0;
    let mut j: usize = 0;
    while j < spaces.len()
        invariant
            j <= spaces@.len(),
            cnt <= j,
            cnt == count_occ(spaces@.take(j as int), visible),
            cnt >= 1 ==> first < j && spaces@[first as int] == visible,
        decreases spaces@.len() - j,
    {
        proof {
            lemma_take_step(spaces@, j as int);
        }
        if spaces[j] == visible {
            if cnt == 0 {
                first = j;
            }
            cnt = cnt + 1;
        }
        j = j + 1;
    }
    proof {
        assert(spaces@.take(spaces@.len() as int) =~= spaces@);
    }
    if cnt == 1 {
        proof {
            lemma_count_unique(spaces@, visible, first as int);
        }
        Ok(first)
    } else {
        Err(SpaceError::Inconsistent)
    }
}

/// Applies the requested move to the current position.
fn step_position(pos: usize, len: usize, mv: SpaceMove) -> (r: usize)
    requires
        0 < len,
        pos < len,
    ensures
        r == stepped(pos as int, len as int, mv),
{
    match mv {
        SpaceMove::Next => pos + 1,
        SpaceMove::Previous => if pos == 0 {
            len - 1
        } else {
            pos - 1
        },
        SpaceMove::Space(s) => s as usize,
    }
}

/// The summed space counts of the entries whose display precedes `d`.
fn preceding_spaces(entries: &Vec<DisplaySpaces>, d: u32) -> (r: usize)
    requires
        total_len(entries@) <= usize::MAX,
    ensures
        r == sum_before(entries@, d),
{
    let mut sum: usize = 0;
    let mut j: usize = 0;
    while j < entries.len()
        invariant
            j <= entries@.len(),
            sum == sum_before(entries@.take(j as int), d),
            total_len(entries@) <= usize::MAX,
        decreases entries@.len() - j,
    {
        proof {
            lemma_take_step(entries@, j as int);
            lemma_sum_before_le_total(entries@.take(j as int + 1), d);
            lemma_total_take_le(entries@, j as int + 1);
        }
        if entries[j].display < d {
            sum = sum + entries[j].spaces.len();
        }
        j = j + 1;
    }
    proof {
        assert(entries@.take(entries@.len() as int) =~= entries@);
    }
    sum
}

/// Whether the snapshot is well-formed; `resolve_targets` refuses snapshots
/// that are not.
#[verifier::loop_isolation(false)]
pub fn config_wf(config: &SpaceConfig) -> (b: bool)
    ensures
        b == config.wf(),
{
    let n = config.displays.len();
    let mut total: usize = 0;
    let mut k: usize = 0;
    while k < n
        invariant
            k <= n,
            total == total_len(config.displays@.take(k as int)),
            forall|i: int, j: int|
                0 <= i < j < k ==> (#[trigger] config.displays@[i]).display != (
                #[trigger] config.displays@[j]).display,
            forall|i: int| 0 <= i < k ==> (#[trigger] config.displays@[i]).spaces@.len() >= 1,
        decreases n - k,
    {
        proof {
            lemma_take_step(config.displays@, k as int);
        }
        let e = &config.displays[k];
        if e.spaces.len() == 0 {
            proof {
                assert(!config.wf());
            }
            return false;
        }
        let mut j: usize = 0;
        while j < k
            invariant
                j <= k < n,
                forall|i: int|
                    0 <= i < j ==> (#[trigger] config.displays@[i]).display
                        != config.displays@[k as int].display,
            decreases k - j,
        {
            if config.displays[j].display == e.display {
                proof {
                    let s = config.displays@;
                    assert(displays_of(s)[j as int] == displays_of(s)[k as int]);
                    assert(!displays_of(s).no_duplicates());
                }
                return false;
            }
            j = j + 1;
        }
        if e.spaces.len() > usize::MAX - total {
            proof {
                lemma_total_take_le(config.displays@, k as int + 1);
                assert(total_len(config.displays@) > usize::MAX);
            }
            return false;
        }
        total = total + e.spaces.len();
        k = k + 1;
    }
    proof {
        let s = config.displays@;
        assert(s.take(n as int) =~= s);
        assert forall|i: int, j: int|
            0 <= i < displays_of(s).len() && 0 <= j < displays_of(s).len() && i != j implies
            displays_of(s)[i] != displays_of(s)[j] by {
            assert(displays_of(s)[i] == s[i].display);
            assert(displays_of(s)[j] == s[j].display);
        }
        assert(config.wf());
    }
    true
}

/// Computes the focus commands for a requested move.
///
/// The focused display's entry and the unique position of its visible space
/// within its list are looked up; any miss or ambiguity is a
/// configuration-consistency error, as is an ill-formed snapshot. On success
/// there is one command per display, in snapshot order: the display's
/// preceding space counts plus the new position taken modulo that display's
/// own space count, always less than the total number of spaces.
#[verifier::loop_isolation(false)]
pub fn resolve_targets(config: &SpaceConfig, mv: SpaceMove) -> (r: Result<
    Vec<FocusCommand>,
    SpaceError,
>)
    ensures
        (r is Ok) <==> (config.wf() && config.has_focused() && count_occ(
            config.focused_entry().spaces@,
            config.focused_entry().visible,
        ) == 1),
        r matches Ok(cmds) ==> ({
            let s = config.displays@;
            let e = config.focused_entry();
            let step = stepped(pos_of(e.spaces@, e.visible), e.spaces@.len() as int, mv);
            &&& cmds@.len() == s.len()
            &&& forall|k: int|
                0 <= k < s.len() ==> {
                    &&& (#[trigger] cmds@[k]).display == s[k].display
                    &&& cmds@[k].target == sum_before(s, s[k].display) + (step % (
                    s[k].spaces@.len() as int))
                    &&& cmds@[k].target < total_len(s)
                }
        }),
        r matches Err(er) ==> er == SpaceError::Inconsistent,
{
    if !config_wf(config) {
        return Err(SpaceError::Inconsistent);
    }
    let n = config.displays.len();
    let mut fi: usize = n;
    let mut k: usize = 0;
    while k < n
        invariant
            k <= n,
            fi == n || fi < k,
            fi == n ==> forall|m: int|
                0 <= m < k ==> (#[trigger] config.displays@[m]).display != config.focused_display,
            fi < n ==> config.displays@[fi as int].display == config.focused_display,
        decreases n - k,
    {
        if fi == n && config.displays[k].display == config.focused_display {
            fi = k;
        }
        k = k + 1;
    }
    if fi == n {
        proof {
            assert(!config.has_focused());
        }
        return Err(SpaceError::Inconsistent);
    }
    let k = fi;
    proof {
        let s = config.displays@;
        assert(config.has_focused());
        let ci = config.focused_index();
        assert(s[ci].display == config.focused_display);
        assert(displays_of(s)[ci] == config.focused_display);
        assert(displays_of(s)[k as int] == config.focused_display);
        assert(ci == k as int);
    }
    let entry = &config.displays[k];
    let pos = match visible_position(&entry.spaces, entry.visible) {
        Ok(p) => p,
        Err(er) => {
            return Err(er);
        },
    };
    let flen = entry.spaces.len();
    proof {
        assert(config.displays@[k as int].spaces@.len() >= 1);
    }
    let step = step_position(pos, flen, mv);
    let mut cmds: Vec<FocusCommand> = Vec::new();
    let mut j: usize = 0;
    while j < n
        invariant
            j <= n,
            cmds@.len() == j,
            forall|m: int|
                0 <= m < j ==> {
                    let s = config.displays@;
                    &&& (#[trigger] cmds@[m]).display == s[m].display
                    &&& cmds@[m].target == sum_before(s, s[m].display) + (step as int % (
                    s[m].spaces@.len() as int))
                    &&& cmds@[m].target < total_len(s)
                },
        decreases n - j,
    {
        let e = &config.displays[j];
        let prev = preceding_spaces(&config.displays, e.display);
        proof {
            lemma_sum_before_bound(config.displays@, j as int);
            assert(config.displays@[j as int].spaces@.len() >= 1);
        }
        let target = prev + step % e.spaces.len();
        cmds.push(FocusCommand { display: e.display, target });
        j = j + 1;
    }
    Ok(cmds)
}

/// The move that the mutually exclusive command-line selections request;
/// with none selected there is no move and the invocation is a no-op.
pub open spec fn selected(next: bool, prev: bool, cycle_to: Option<u32>) -> Option<SpaceMove> {
    if next {
        Some(SpaceMove::Next)
    } else if prev {
        Some(SpaceMove::Previous)
    } else {
        match cycle_to {
            Some(x) => Some(SpaceMove::Space(x)),
            None => None,
        }
    }
}

/// Maps the mutually exclusive command-line selections to the requested
/// move; with none selected there is no move and the invocation is a no-op.
pub fn select_move(next: bool, prev: bool, cycle_to: Option<u32>) -> (r: Option<SpaceMove>)
    ensures
        r == selected(next, prev, cycle_to),
{
    if next {
        Some(SpaceMove::Next)
    } else if prev {
        Some(SpaceMove::Previous)
    } else {
        match cycle_to {
            Some(x) => Some(SpaceMove::Space(x)),
            None => None,
        }
    }
}

} // verus!
