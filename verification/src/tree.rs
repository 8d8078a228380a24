//! Tree layout of process rows: parent links, sibling order and the visible walk.

use vstd::prelude::*;
use std::collections::{HashMap, HashSet};

use crate::model::ProcRow;
use crate::process::{
    lemma_row_order_antisymmetric, lemma_row_order_reflexive, lemma_row_order_transitive,
    row_order, row_order_sign,
};

verus! {

broadcast use vstd::std_specs::hash::group_hash_axioms;

/// Pid of the init process; its children are drawn as top-level rows.
pub open spec fn init_pid() -> i32 {
    1
}

/// Some row carries this pid.
pub open spec fn pid_shown(rows: Seq<ProcRow>, pid: i32) -> bool {
    exists|i: int| 0 <= i < rows.len() && rows[i].pid == pid
}

/// The first pid of an ancestor chain that some row carries.
pub open spec fn first_shown(rows: Seq<ProcRow>, chain: Seq<i32>) -> Option<i32>
    decreases chain.len(),
{
    if chain.len() == 0 {
        None
    } else if pid_shown(rows, chain[0]) {
        Some(chain[0])
    } else {
        first_shown(rows, chain.drop_first())
    }
}

/// The pid a row is drawn under: none for children of init and for rows with no shown
/// ancestor, otherwise the nearest shown ancestor.
pub open spec fn tree_parent(rows: Seq<ProcRow>, j: int) -> Option<i32> {
    if rows[j].ppid == Some(init_pid()) {
        None
    } else {
        first_shown(rows, rows[j].ancestor_chain@)
    }
}

/// Sibling order: row order, with ties broken by row index.
pub open spec fn index_before(rows: Seq<ProcRow>, a: usize, b: usize) -> bool {
    row_order(rows[a as int], rows[b as int]) < 0 || (row_order(rows[a as int], rows[b as int])
        == 0 && a < b)
}

/// The indices are in sibling order (which also makes them distinct).
pub open spec fn sorted_by_rows(rows: Seq<ProcRow>, s: Seq<usize>) -> bool {
    forall|k: int, l: int|
        0 <= k < l < s.len() ==> index_before(rows, #[trigger] s[k], #[trigger] s[l])
}

/// `s` lists exactly `members`, in sibling order.
pub open spec fn arranges(rows: Seq<ProcRow>, s: Seq<usize>, members: Set<usize>) -> bool {
    sorted_by_rows(rows, s) && s.to_set() == members
}

/// The members of a set of row indices in sibling order.
pub open spec fn ordered(rows: Seq<ProcRow>, members: Set<usize>) -> Seq<usize> {
    choose|s: Seq<usize>| arranges(rows, s, members)
}

/// Rows drawn directly under `pid`.
pub open spec fn child_set(rows: Seq<ProcRow>, pid: i32) -> Set<usize> {
    Set::new(|j: usize| j < rows.len() && tree_parent(rows, j as int) == Some(pid))
}

/// Rows drawn at the top level.
pub open spec fn root_set(rows: Seq<ProcRow>) -> Set<usize> {
    Set::new(|j: usize| j < rows.len() && tree_parent(rows, j as int) is None)
}

/// Rows drawn directly under `pid`, in sibling order.
pub open spec fn tree_children(rows: Seq<ProcRow>, pid: i32) -> Seq<usize> {
    ordered(rows, child_set(rows, pid))
}

/// Top-level rows in sibling order.
pub open spec fn tree_roots(rows: Seq<ProcRow>) -> Seq<usize> {
    ordered(rows, root_set(rows))
}

/// Sibling order is a strict total order on distinct indices.
pub proof fn lemma_index_before_strict(rows: Seq<ProcRow>, a: usize, b: usize, c: usize)
    ensures
        !index_before(rows, a, a),
        index_before(rows, a, b) ==> !index_before(rows, b, a),
        a != b ==> index_before(rows, a, b) || index_before(rows, b, a),
        index_before(rows, a, b) && index_before(rows, b, c) ==> index_before(rows, a, c),
{
    lemma_row_order_reflexive(rows[a as int]);
    lemma_row_order_antisymmetric(rows[a as int], rows[b as int]);
    if index_before(rows, a, b) && index_before(rows, b, c) {
        lemma_row_order_transitive(rows[a as int], rows[b as int], rows[c as int]);
    }
}

/// A set has at most one arrangement in sibling order.
pub proof fn lemma_arrangement_unique(
    rows: Seq<ProcRow>,
    s1: Seq<usize>,
    s2: Seq<usize>,
    members: Set<usize>,
)
    requires
        arranges(rows, s1, members),
        arranges(rows, s2, members),
    ensures
        s1 == s2,
    decreases s1.len(),
{
    if s1.len() == 0 {
        if s2.len() > 0 {
            assert(s2.to_set().contains(s2[0]));
            assert(!s1.to_set().contains(s2[0]));
        }
        assert(s1 =~= s2);
    } else {
        assert(s1.to_set().contains(s1[0]));
        assert(s2.to_set().contains(s1[0]));
        let i = s2.index_of(s1[0]);
        let m2 = s2[0];
        assert(s1.to_set().contains(m2));
        let k = s1.index_of(m2);
        if s1[0] != m2 {
            assert(i > 0);
            assert(k > 0);
            assert(index_before(rows, s2[0], s2[i]));
            assert(index_before(rows, s1[0], s1[k]));
            lemma_index_before_strict(rows, s1[0], m2, m2);
            assert(false);
        }
        let t1 = s1.drop_first();
        let t2 = s2.drop_first();
        let rest = members.remove(s1[0]);
        assert forall|x: usize| t1.to_set().contains(x) <==> rest.contains(x) by {
            if t1.to_set().contains(x) {
                let a = t1.index_of(x);
                assert(s1[a + 1] == x);
                lemma_index_before_strict(rows, s1[0], x, x);
            }
            if rest.contains(x) {
                assert(s1.to_set().contains(x));
                let a = s1.index_of(x);
                assert(a != 0);
                assert(t1[a - 1] == x);
            }
        }
        assert forall|x: usize| t2.to_set().contains(x) <==> rest.contains(x) by {
            if t2.to_set().contains(x) {
                let a = t2.index_of(x);
                assert(s2[a + 1] == x);
                lemma_index_before_strict(rows, s2[0], x, x);
            }
            if rest.contains(x) {
                assert(s2.to_set().contains(x));
                let a = s2.index_of(x);
                assert(a != 0);
                assert(t2[a - 1] == x);
            }
        }
        assert(t1.to_set() =~= rest);
        assert(t2.to_set() =~= rest);
        lemma_arrangement_unique(rows, t1, t2, rest);
        assert(s1 =~= seq![s1[0]] + t1);
        assert(s2 =~= seq![s2[0]] + t2);
    }
}

/// An arrangement of `members` is the one `ordered` names.
pub proof fn lemma_ordered_is(rows: Seq<ProcRow>, s: Seq<usize>, members: Set<usize>)
    requires
        arranges(rows, s, members),
    ensures
        ordered(rows, members) == s,
{
    let o = ordered(rows, members);
    assert(arranges(rows, o, members));
    lemma_arrangement_unique(rows, o, s, members);
}

/// Sibling order between two row indices.
fn index_before_exec(rows: &[ProcRow], a: usize, b: usize) -> (r: bool)
    requires
        a < rows@.len(),
        b < rows@.len(),
    ensures
        r == index_before(rows@, a, b),
{
    let c = row_order_sign(&rows[a], &rows[b]);
    c < 0 || (c == 0 && a < b)
}

/// Inserts a new index into a list kept in sibling order.
fn insert_by_rows(list: &mut Vec<usize>, x: usize, rows: &[ProcRow])
    requires
        x < rows@.len(),
        sorted_by_rows(rows@, old(list)@),
        !old(list)@.contains(x),
        forall|k: int| 0 <= k < old(list)@.len() ==> #[trigger] old(list)@[k] < rows@.len(),
    ensures
        sorted_by_rows(rows@, final(list)@),
        final(list)@.to_set() == old(list)@.to_set().insert(x),
        forall|k: int| 0 <= k < final(list)@.len() ==> #[trigger] final(list)@[k] < rows@.len(),
{
    let mut pos: usize = 0;
    while pos < list.len() && !index_before_exec(rows, x, list[pos])
        invariant
            pos <= list@.len(),
            x < rows@.len(),
            forall|k: int| 0 <= k < list@.len() ==> #[trigger] list@[k] < rows@.len(),
            forall|k: int| 0 <= k < pos ==> !index_before(rows@, x, #[trigger] list@[k]),
        decreases list@.len() - pos,
    {
        pos = pos + 1;
    }
    let ghost old_list = list@;
    proof {
        assert forall|k: int| 0 <= k < pos implies index_before(rows@, #[trigger] old_list[k], x) by {
            assert(old_list[k] != x);
            lemma_index_before_strict(rows@, x, old_list[k], x);
        }
        assert forall|k: int| pos <= k < old_list.len() implies index_before(
            rows@,
            x,
            #[trigger] old_list[k],
        ) by {
            if k > pos {
                assert(index_before(rows@, old_list[pos as int], old_list[k]));
                lemma_index_before_strict(rows@, x, old_list[pos as int], old_list[k]);
            }
        }
    }
    list.insert(pos, x);
    proof {
        assert forall|k: int, l: int| 0 <= k < l < list@.len() implies index_before(
            rows@,
            #[trigger] list@[k],
            #[trigger] list@[l],
        ) by {
            let k0 = if k < pos { k } else { k - 1 };
            let l0 = if l < pos { l } else { l - 1 };
            if k != pos && l != pos {
                assert(index_before(rows@, old_list[k0], old_list[l0]));
            }
        }
        assert forall|y: usize| list@.to_set().contains(y) <==> old_list.to_set().insert(
            x,
        ).contains(y) by {
            if list@.to_set().contains(y) {
                let a = list@.index_of(y);
                if a < pos {
                    assert(old_list[a] == y);
                } else if a > pos {
                    assert(old_list[a - 1] == y);
                }
            }
            if old_list.to_set().contains(y) {
                let a = old_list.index_of(y);
                if a < pos {
                    assert(list@[a] == y);
                } else {
                    assert(list@[a + 1] == y);
                }
            }
            if y == x {
                assert(list@[pos as int] == x);
            }
        }
        assert(list@.to_set() =~= old_list.to_set().insert(x));
    }
}

} // verus!

verus! {

/// Rows before `j` drawn at the top level.
pub open spec fn root_set_upto(rows: Seq<ProcRow>, j: int) -> Set<usize> {
    Set::new(|i: usize| i < j && tree_parent(rows, i as int) is None)
}

/// Rows before `j` drawn under `pid`.
pub open spec fn child_set_upto(rows: Seq<ProcRow>, pid: i32, j: int) -> Set<usize> {
    Set::new(|i: usize| i < j && tree_parent(rows, i as int) == Some(pid))
}

/// The lookup table holds the children of every pid that has any, in sibling order.
pub open spec fn children_match(rows: Seq<ProcRow>, children: Map<i32, Vec<usize>>) -> bool {
    &&& forall|p: i32| #[trigger]
        children.contains_key(p) ==> children[p]@ == tree_children(rows, p)
    &&& forall|p: i32| !children.contains_key(p) ==> #[trigger] tree_children(rows, p) == Seq::<
        usize,
    >::empty()
}

/// The empty set's arrangement is the empty sequence.
proof fn lemma_ordered_empty(rows: Seq<ProcRow>)
    ensures
        ordered(rows, Set::<usize>::empty()) == Seq::<usize>::empty(),
{
    let e = Seq::<usize>::empty();
    assert(e.to_set() =~= Set::<usize>::empty());
    lemma_ordered_is(rows, e, Set::<usize>::empty());
}

/// Roots and per-pid child lists of the process tree, each in sibling order.
struct TreeLayout {
    roots: Vec<usize>,
    children: HashMap<i32, Vec<usize>>,
}

/// The first pid of `ancestor_chain` that some row carries.
fn nearest_visible_ancestor(
    ancestor_chain: &Vec<i32>,
    visible: &HashSet<i32>,
    Ghost(rows): Ghost<Seq<ProcRow>>,
) -> (r: Option<i32>)
    requires
        forall|p: i32| visible@.contains(p) <==> pid_shown(rows, p),
    ensures
        r == first_shown(rows, ancestor_chain@),
{
    let mut i: usize = 0;
    assert(ancestor_chain@.skip(0) =~= ancestor_chain@);
    while i < ancestor_chain.len()
        invariant
            i <= ancestor_chain@.len(),
            forall|p: i32| visible@.contains(p) <==> pid_shown(rows, p),
            first_shown(rows, ancestor_chain@) == first_shown(
                rows,
                ancestor_chain@.skip(i as int),
            ),
        decreases ancestor_chain@.len() - i,
    {
        let candidate = ancestor_chain[i];
        if visible.contains(&candidate) {
            return Some(candidate);
        }
        assert(ancestor_chain@.skip(i as int).drop_first() =~= ancestor_chain@.skip(i + 1));
        i = i + 1;
    }
    assert(ancestor_chain@.skip(i as int).len() == 0);
    None
}

impl TreeLayout {
    /// Attach every row to its nearest shown ancestor and order each sibling group.
    fn build(rows: &[ProcRow]) -> (r: Self)
        ensures
            r.roots@ == tree_roots(rows@),
            children_match(rows@, r.children@),
    {
        let n = rows.len();
        let mut visible: HashSet<i32> = HashSet::new();
        let mut i: usize = 0;
        while i < n
            invariant
                n == rows@.len(),
                i <= n,
                forall|p: i32|
                    visible@.contains(p) <==> exists|k: int| 0 <= k < i && rows@[k].pid == p,
            decreases n - i,
        {
            visible.insert(rows[i].pid);
            proof {
                assert forall|p: i32|
                    visible@.contains(p) <==> exists|k: int| 0 <= k < i + 1 && rows@[k].pid
                        == p by {
                    if visible@.contains(p) && p == rows@[i as int].pid {
                        assert(0 <= i < i + 1 && rows@[i as int].pid == p);
                    }
                }
            }
            i = i + 1;
        }
        let ghost rs = rows@;
        let mut roots: Vec<usize> = Vec::new();
        let mut children: HashMap<i32, Vec<usize>> = HashMap::new();
        let mut j: usize = 0;
        proof {
            assert(roots@.to_set() =~= root_set_upto(rs, 0));
            assert forall|p: i32| !children@.contains_key(p) implies child_set_upto(rs, p, 0)
                == Set::<usize>::empty() by {
                assert(child_set_upto(rs, p, 0) =~= Set::<usize>::empty());
            }
        }
        while j < n
            invariant
                n == rs.len(),
                rs == rows@,
                j <= n,
                forall|p: i32| visible@.contains(p) <==> pid_shown(rs, p),
                arranges(rs, roots@, root_set_upto(rs, j as int)),
                forall|p: i32| #[trigger]
                    children@.contains_key(p) ==> arranges(
                        rs,
                        children@[p]@,
                        child_set_upto(rs, p, j as int),
                    ),
                forall|p: i32|
                    !children@.contains_key(p) ==> #[trigger] child_set_upto(rs, p, j as int)
                        == Set::<usize>::empty(),
            decreases n - j,
        {
            let parent: Option<i32> = if rows[j].ppid == Some(1i32) {
                None
            } else {
                nearest_visible_ancestor(&rows[j].ancestor_chain, &visible, Ghost(rs))
            };
            assert(parent == tree_parent(rs, j as int));
            match parent {
                None => {
                    proof {
                        assert forall|k: int| 0 <= k < roots@.len() implies #[trigger] roots@[k]
                            < rs.len() by {
                            assert(roots@.to_set().contains(roots@[k]));
                        }
                        assert(!roots@.contains(j)) by {
                            if roots@.contains(j) {
                                assert(roots@.to_set().contains(j));
                            }
                        }
                    }
                    insert_by_rows(&mut roots, j, rows);
                    proof {
                        assert(root_set_upto(rs, j + 1) =~= root_set_upto(rs, j as int).insert(
                            j,
                        ));
                        assert forall|p: i32| #[trigger]
                            children@.contains_key(p) implies arranges(
                            rs,
                            children@[p]@,
                            child_set_upto(rs, p, j + 1),
                        ) by {
                            assert(child_set_upto(rs, p, j + 1) =~= child_set_upto(
                                rs,
                                p,
                                j as int,
                            ));
                        }
                        assert forall|p: i32| !children@.contains_key(p) implies #[trigger]
                            child_set_upto(rs, p, j + 1) == Set::<usize>::empty() by {
                            assert(child_set_upto(rs, p, j + 1) =~= child_set_upto(
                                rs,
                                p,
                                j as int,
                            ));
                        }
                    }
                },
                Some(parent_pid) => {
                    let ghost old_children = children@;
                    let mut group: Vec<usize> = match children.remove(&parent_pid) {
                        Some(existing) => existing,
                        None => Vec::new(),
                    };
                    proof {
                        assert(arranges(rs, group@, child_set_upto(rs, parent_pid, j as int)))
                            by {
                            if !old_children.contains_key(parent_pid) {
                                assert(group@.to_set() =~= Set::<usize>::empty());
                            }
                        }
                        assert forall|k: int| 0 <= k < group@.len() implies #[trigger] group@[k]
                            < rs.len() by {
                            assert(group@.to_set().contains(group@[k]));
                        }
                        assert(!group@.contains(j)) by {
                            if group@.contains(j) {
                                assert(group@.to_set().contains(j));
                            }
                        }
                    }
                    insert_by_rows(&mut group, j, rows);
                    children.insert(parent_pid, group);
                    proof {
                        assert(child_set_upto(rs, parent_pid, j + 1) =~= child_set_upto(
                            rs,
                            parent_pid,
                            j as int,
                        ).insert(j));
                        assert(root_set_upto(rs, j + 1) =~= root_set_upto(rs, j as int));
                        assert forall|p: i32| #[trigger]
                            children@.contains_key(p) implies arranges(
                            rs,
                            children@[p]@,
                            child_set_upto(rs, p, j + 1),
                        ) by {
                            if p != parent_pid {
                                assert(child_set_upto(rs, p, j + 1) =~= child_set_upto(
                                    rs,
                                    p,
                                    j as int,
                                ));
                            }
                        }
                        assert forall|p: i32| !children@.contains_key(p) implies #[trigger]
                            child_set_upto(rs, p, j + 1) == Set::<usize>::empty() by {
                            assert(child_set_upto(rs, p, j + 1) =~= child_set_upto(
                                rs,
                                p,
                                j as int,
                            ));
                        }
                    }
                },
            }
            j = j + 1;
        }
        proof {
            assert(root_set_upto(rs, n as int) =~= root_set(rs));
            lemma_ordered_is(rs, roots@, root_set(rs));
            assert forall|p: i32| #[trigger]
                children@.contains_key(p) implies children@[p]@ == tree_children(rs, p) by {
                assert(child_set_upto(rs, p, n as int) =~= child_set(rs, p));
                lemma_ordered_is(rs, children@[p]@, child_set(rs, p));
            }
            assert forall|p: i32| !children@.contains_key(p) implies #[trigger] tree_children(
                rs,
                p,
            ) == Seq::<usize>::empty() by {
                assert(child_set_upto(rs, p, n as int) =~= child_set(rs, p));
                lemma_ordered_empty(rs);
            }
        }
        TreeLayout { roots, children }
    }
}

} // verus!

verus! {

/// A single visible row in the rendered process tree.
#[derive(Clone, Debug, PartialEq, Eq)]
pub struct DisplayRow {
    /// Backing index into the row list.
    pub row_index: usize,
    /// Connector prefix shown before the process name.
    pub prefix: String,
    /// Whether the row has children in the tree.
    pub has_children: bool,
    /// Whether the row's descendants are hidden.
    pub is_collapsed: bool,
}

impl View for DisplayRow {
    type V = (usize, Seq<char>, bool, bool);

    open spec fn view(&self) -> (usize, Seq<char>, bool, bool) {
        (self.row_index, self.prefix@, self.has_children, self.is_collapsed)
    }
}

/// One pending step of the tree walk: draw a row, or hide a collapsed row's descendant.
pub struct WalkFrame {
    /// Row index the step is about.
    pub node: usize,
    /// For each drawn ancestor level below the top, whether that level has later siblings.
    pub anc: Seq<bool>,
    /// Whether the row is the last of its siblings.
    pub is_last: bool,
    /// Whether the row is drawn at the top level.
    pub is_root: bool,
    /// Whether the step hides the row instead of drawing it.
    pub hide: bool,
}

/// State of the tree walk: pending steps (last is next), rows already reached, rows drawn.
pub struct WalkState {
    /// Pending steps; the last one runs next.
    pub stack: Seq<WalkFrame>,
    /// For each row index, whether the walk has drawn or hidden it.
    pub visited: Seq<bool>,
    /// Rows drawn so far.
    pub out: Seq<(usize, Seq<char>, bool, bool)>,
}

/// Connector text for the ancestor levels: a bar where that level has later siblings.
pub open spec fn guide_prefix(anc: Seq<bool>) -> Seq<char>
    decreases anc.len(),
{
    if anc.len() == 0 {
        Seq::empty()
    } else {
        guide_prefix(anc.drop_last()) + if anc.last() {
            "│ "@
        } else {
            "  "@
        }
    }
}

/// Full connector prefix of a drawn row.
pub open spec fn row_prefix(anc: Seq<bool>, is_last: bool, is_root: bool) -> Seq<char> {
    guide_prefix(anc) + if is_root {
        Seq::empty()
    } else if is_last {
        "└─"@
    } else {
        "├─"@
    }
}

/// Steps that hide each of `kids`.
pub open spec fn hide_frames(kids: Seq<usize>) -> Seq<WalkFrame> {
    Seq::new(
        kids.len(),
        |i: int| WalkFrame { node: kids[i], anc: Seq::empty(), is_last: false, is_root: false, hide: true },
    )
}

/// Steps that draw `kids` below a row, pushed so the first child runs first.
pub open spec fn child_frames(kids: Seq<usize>, anc: Seq<bool>) -> Seq<WalkFrame> {
    Seq::new(
        kids.len(),
        |i: int|
            WalkFrame {
                node: kids[kids.len() - 1 - i],
                anc,
                is_last: i == 0,
                is_root: false,
                hide: false,
            },
    )
}

/// Steps that draw top-level rows, pushed so the first runs first.
pub open spec fn root_frames(roots: Seq<usize>, all_last: bool) -> Seq<WalkFrame> {
    Seq::new(
        roots.len(),
        |i: int|
            WalkFrame {
                node: roots[roots.len() - 1 - i],
                anc: Seq::empty(),
                is_last: all_last || i == 0,
                is_root: true,
                hide: false,
            },
    )
}

/// Number of rows the walk has not reached.
pub open spec fn count_unvisited(v: Seq<bool>) -> nat
    decreases v.len(),
{
    if v.len() == 0 {
        0
    } else {
        count_unvisited(v.drop_last()) + if v.last() {
            0nat
        } else {
            1nat
        }
    }
}

/// Reaching a new row lowers the unvisited count by one.
pub proof fn lemma_count_unvisited_mark(v: Seq<bool>, i: int)
    requires
        0 <= i < v.len(),
        !v[i],
    ensures
        count_unvisited(v.update(i, true)) + 1 == count_unvisited(v),
    decreases v.len(),
{
    let w = v.update(i, true);
    if i == v.len() - 1 {
        assert(w.drop_last() =~= v.drop_last());
    } else {
        assert(w.drop_last() =~= v.drop_last().update(i, true));
        lemma_count_unvisited_mark(v.drop_last(), i);
    }
}

/// One step of the tree walk.
pub open spec fn walk_step(rows: Seq<ProcRow>, collapsed: Set<i32>, s: WalkState) -> WalkState {
    let f = s.stack.last();
    let rest = s.stack.drop_last();
    if f.node >= s.visited.len() || s.visited[f.node as int] {
        WalkState { stack: rest, visited: s.visited, out: s.out }
    } else {
        let pid = rows[f.node as int].pid;
        let kids = tree_children(rows, pid);
        let visited = s.visited.update(f.node as int, true);
        if f.hide {
            WalkState { stack: rest + hide_frames(kids), visited, out: s.out }
        } else {
            let has_children = kids.len() > 0;
            let is_collapsed = has_children && collapsed.contains(pid);
            let out = s.out.push(
                (f.node, row_prefix(f.anc, f.is_last, f.is_root), has_children, is_collapsed),
            );
            if is_collapsed {
                WalkState { stack: rest + hide_frames(kids), visited, out }
            } else {
                let anc = if f.is_root {
                    f.anc
                } else {
                    f.anc.push(!f.is_last)
                };
                WalkState { stack: rest + child_frames(kids, anc), visited, out }
            }
        }
    }
}

/// Each step either reaches a new row or pops a step.
pub proof fn lemma_walk_step_progress(rows: Seq<ProcRow>, collapsed: Set<i32>, s: WalkState)
    requires
        s.stack.len() > 0,
    ensures
        walk_step(rows, collapsed, s).visited.len() == s.visited.len(),
        count_unvisited(walk_step(rows, collapsed, s).visited) < count_unvisited(s.visited) || (
        count_unvisited(walk_step(rows, collapsed, s).visited) == count_unvisited(s.visited)
            && walk_step(rows, collapsed, s).stack.len() < s.stack.len()),
{
    let f = s.stack.last();
    if !(f.node >= s.visited.len() || s.visited[f.node as int]) {
        lemma_count_unvisited_mark(s.visited, f.node as int);
    }
}

/// Run the walk until no step is pending.
pub open spec fn walk_run(rows: Seq<ProcRow>, collapsed: Set<i32>, s: WalkState) -> WalkState
    decreases count_unvisited(s.visited), s.stack.len(),
{
    if s.stack.len() == 0 {
        s
    } else {
        proof {
            lemma_walk_step_progress(rows, collapsed, s);
        }
        walk_run(rows, collapsed, walk_step(rows, collapsed, s))
    }
}

/// The walk from the top-level rows, before any row is reached.
pub open spec fn walk_start(rows: Seq<ProcRow>) -> WalkState {
    WalkState {
        stack: root_frames(tree_roots(rows), false),
        visited: Seq::new(rows.len(), |i: int| false),
        out: Seq::empty(),
    }
}

/// Rows not reached from the top-level rows (their parent links form a cycle), in sibling order.
pub open spec fn leftover_rows(rows: Seq<ProcRow>, visited: Seq<bool>) -> Seq<usize> {
    ordered(rows, Set::new(|i: usize| i < rows.len() && !visited[i as int]))
}

/// The visible rows of the process tree, in drawing order.
pub open spec fn display_view(rows: Seq<ProcRow>, collapsed: Set<i32>) -> Seq<
    (usize, Seq<char>, bool, bool),
> {
    let first = walk_run(rows, collapsed, walk_start(rows));
    let second = WalkState {
        stack: root_frames(leftover_rows(rows, first.visited), true),
        visited: first.visited,
        out: first.out,
    };
    walk_run(rows, collapsed, second).out
}

} // verus!

verus! {

/// A pending walk step.
struct Frame {
    node: usize,
    anc: Vec<bool>,
    is_last: bool,
    is_root: bool,
    hide: bool,
}

impl View for Frame {
    type V = WalkFrame;

    closed spec fn view(&self) -> WalkFrame {
        WalkFrame {
            node: self.node,
            anc: self.anc@,
            is_last: self.is_last,
            is_root: self.is_root,
            hide: self.hide,
        }
    }
}

/// Views of a stack of pending steps.
spec fn frames_view(stack: Seq<Frame>) -> Seq<WalkFrame> {
    stack.map_values(|f: Frame| f@)
}

/// Views of drawn rows.
pub open spec fn rows_view(out: Seq<DisplayRow>) -> Seq<(usize, Seq<char>, bool, bool)> {
    out.map_values(|d: DisplayRow| d@)
}

/// The walk state held in executable form.
spec fn state_view(stack: Seq<Frame>, visited: Seq<bool>, out: Seq<DisplayRow>) -> WalkState {
    WalkState { stack: frames_view(stack), visited, out: rows_view(out) }
}

/// A copy of a flag vector.
fn copy_flags(v: &Vec<bool>) -> (r: Vec<bool>)
    ensures
        r@ == v@,
{
    let mut r: Vec<bool> = Vec::new();
    let mut i: usize = 0;
    while i < v.len()
        invariant
            i <= v@.len(),
            r@ == v@.take(i as int),
        decreases v@.len() - i,
    {
        r.push(v[i]);
        assert(v@.take(i + 1) =~= v@.take(i as int).push(v@[i as int]));
        i = i + 1;
    }
    assert(v@.take(i as int) =~= v@);
    r
}

/// Connector prefix for a drawn row.
fn build_prefix(anc: &Vec<bool>, is_last: bool, is_root: bool) -> (r: String)
    ensures
        r@ == row_prefix(anc@, is_last, is_root),
{
    let mut prefix = String::new();
    let mut i: usize = 0;
    assert(anc@.take(0) =~= Seq::<bool>::empty());
    while i < anc.len()
        invariant
            i <= anc@.len(),
            prefix@ == guide_prefix(anc@.take(i as int)),
        decreases anc@.len() - i,
    {
        if anc[i] {
            prefix.append("│ ");
        } else {
            prefix.append("  ");
        }
        assert(anc@.take(i + 1).drop_last() =~= anc@.take(i as int));
        i = i + 1;
    }
    assert(anc@.take(i as int) =~= anc@);
    if !is_root {
        if is_last {
            prefix.append("└─");
        } else {
            prefix.append("├─");
        }
    } else {
        assert(prefix@ + Seq::<char>::empty() =~= prefix@);
    }
    prefix
}

/// Run pending walk steps until none is left.
fn walk_pending(
    rows: &[ProcRow],
    layout: &TreeLayout,
    collapsed_pids: &HashSet<i32>,
    stack: &mut Vec<Frame>,
    visited: &mut Vec<bool>,
    ordered: &mut Vec<DisplayRow>,
)
    requires
        children_match(rows@, layout.children@),
        old(visited)@.len() == rows@.len(),
    ensures
        state_view(final(stack)@, final(visited)@, final(ordered)@) == walk_run(
            rows@,
            collapsed_pids@,
            state_view(old(stack)@, old(visited)@, old(ordered)@),
        ),
        final(visited)@.len() == rows@.len(),
        final(stack)@.len() == 0,
{
    let ghost target = walk_run(
        rows@,
        collapsed_pids@,
        state_view(stack@, visited@, ordered@),
    );
    let empty: Vec<usize> = Vec::new();
    while stack.len() > 0
        invariant
            children_match(rows@, layout.children@),
            visited@.len() == rows@.len(),
            empty@ == Seq::<usize>::empty(),
            walk_run(rows@, collapsed_pids@, state_view(stack@, visited@, ordered@)) == target,
        decreases count_unvisited(visited@), stack@.len(),
    {
        let ghost s = state_view(stack@, visited@, ordered@);
        let ghost next = walk_step(rows@, collapsed_pids@, s);
        proof {
            lemma_walk_step_progress(rows@, collapsed_pids@, s);
        }
        let ghost rest_stack = stack@.drop_last();
        let f = stack.pop().unwrap();
        assert(frames_view(stack@) =~= s.stack.drop_last());
        assert(f@ == s.stack.last());
        if f.node >= visited.len() || visited[f.node] {
            assert(state_view(stack@, visited@, ordered@) == next);
        } else {
            visited.set(f.node, true);
            let pid = rows[f.node].pid;
            let kids: &Vec<usize> = match layout.children.get(&pid) {
                Some(k) => k,
                None => &empty,
            };
            assert(kids@ == tree_children(rows@, pid));
            let has_children = kids.len() > 0;
            let hide_kids = if f.hide {
                true
            } else {
                let is_collapsed = has_children && collapsed_pids.contains(&pid);
                let prefix = build_prefix(&f.anc, f.is_last, f.is_root);
                ordered.push(
                    DisplayRow { row_index: f.node, prefix, has_children, is_collapsed },
                );
                is_collapsed
            };
            assert(rows_view(ordered@) =~= next.out);
            if hide_kids {
                let ghost base = frames_view(stack@);
                let mut i: usize = 0;
                while i < kids.len()
                    invariant
                        i <= kids@.len(),
                        frames_view(stack@) =~= base + hide_frames(kids@).take(i as int),
                    decreases kids@.len() - i,
                {
                    let frame = Frame {
                        node: kids[i],
                        anc: Vec::new(),
                        is_last: false,
                        is_root: false,
                        hide: true,
                    };
                    assert(frame@ == hide_frames(kids@)[i as int]);
                    let ghost prev = stack@;
                    stack.push(frame);
                    assert(frames_view(stack@) =~= frames_view(prev).push(frame@));
                    assert(hide_frames(kids@).take(i + 1) =~= hide_frames(kids@).take(
                        i as int,
                    ).push(hide_frames(kids@)[i as int]));
                    i = i + 1;
                }
                assert(hide_frames(kids@).take(i as int) =~= hide_frames(kids@));
            } else {
                let mut anc = copy_flags(&f.anc);
                if !f.is_root {
                    anc.push(!f.is_last);
                }
                let ghost base = frames_view(stack@);
                let n = kids.len();
                let mut c: usize = n;
                while c > 0
                    invariant
                        c <= n,
                        n == kids@.len(),
                        frames_view(stack@) =~= base + child_frames(kids@, anc@).take(
                            (n - c) as int,
                        ),
                    decreases c,
                {
                    let frame = Frame {
                        node: kids[c - 1],
                        anc: copy_flags(&anc),
                        is_last: c == n,
                        is_root: false,
                        hide: false,
                    };
                    assert(frame@ == child_frames(kids@, anc@)[(n - c) as int]);
                    let ghost prev = stack@;
                    stack.push(frame);
                    assert(frames_view(stack@) =~= frames_view(prev).push(frame@));
                    assert(child_frames(kids@, anc@).take((n - c + 1) as int) =~= child_frames(
                        kids@,
                        anc@,
                    ).take((n - c) as int).push(child_frames(kids@, anc@)[(n - c) as int]));
                    c = c - 1;
                }
                assert(child_frames(kids@, anc@).take(n as int) =~= child_frames(kids@, anc@));
            }
            assert(state_view(stack@, visited@, ordered@) == next);
        }
    }
}

} // verus!

verus! {

/// Push steps that draw `roots` at the top level, first root on top.
fn push_root_frames(stack: &mut Vec<Frame>, roots: &Vec<usize>, all_last: bool)
    ensures
        frames_view(final(stack)@) == frames_view(old(stack)@) + root_frames(roots@, all_last),
{
    let ghost base = frames_view(stack@);
    let n = roots.len();
    let mut c: usize = n;
    while c > 0
        invariant
            c <= n,
            n == roots@.len(),
            frames_view(stack@) =~= base + root_frames(roots@, all_last).take((n - c) as int),
        decreases c,
    {
        let frame = Frame {
            node: roots[c - 1],
            anc: Vec::new(),
            is_last: all_last || c == n,
            is_root: true,
            hide: false,
        };
        assert(frame@ == root_frames(roots@, all_last)[(n - c) as int]);
        let ghost prev = stack@;
        stack.push(frame);
        assert(frames_view(stack@) =~= frames_view(prev).push(frame@));
        assert(root_frames(roots@, all_last).take((n - c + 1) as int) =~= root_frames(
            roots@,
            all_last,
        ).take((n - c) as int).push(root_frames(roots@, all_last)[(n - c) as int]));
        c = c - 1;
    }
    assert(root_frames(roots@, all_last).take(n as int) =~= root_frames(roots@, all_last));
}

/// Walk the tree from the top-level rows, then from every row left unreached.
fn walk_display_rows(
    rows: &[ProcRow],
    tree: &TreeLayout,
    collapsed_pids: &HashSet<i32>,
) -> (r: Vec<DisplayRow>)
    requires
        tree.roots@ == tree_roots(rows@),
        children_match(rows@, tree.children@),
    ensures
        rows_view(r@) == display_view(rows@, collapsed_pids@),
        display_facts(rows@, collapsed_pids@, display_view(rows@, collapsed_pids@)),
{
    let n = rows.len();
    let mut ordered: Vec<DisplayRow> = Vec::new();
    let mut visited: Vec<bool> = Vec::new();
    while visited.len() < n
        invariant
            visited@.len() <= n,
            forall|i: int| 0 <= i < visited@.len() ==> !#[trigger] visited@[i],
        decreases n - visited@.len(),
    {
        visited.push(false);
    }
    let mut stack: Vec<Frame> = Vec::new();
    push_root_frames(&mut stack, &tree.roots, false);
    assert(frames_view(Seq::<Frame>::empty()) =~= Seq::<WalkFrame>::empty());
    assert(visited@ =~= Seq::new(rows@.len(), |i: int| false));
    assert(rows_view(ordered@) =~= Seq::empty());
    assert(state_view(stack@, visited@, ordered@) == walk_start(rows@));
    walk_pending(rows, tree, collapsed_pids, &mut stack, &mut visited, &mut ordered);
    let ghost first = walk_run(rows@, collapsed_pids@, walk_start(rows@));
    let mut remaining: Vec<usize> = Vec::new();
    let mut idx: usize = 0;
    let ghost left = |j: int| Set::new(|i: usize| i < j && !visited@[i as int]);
    assert(remaining@.to_set() =~= left(0));
    while idx < n
        invariant
            idx <= n,
            n == rows@.len(),
            visited@.len() == n,
            left == (|j: int| Set::new(|i: usize| i < j && !visited@[i as int])),
            arranges(rows@, remaining@, left(idx as int)),
        decreases n - idx,
    {
        if !visited[idx] {
            proof {
                assert forall|k: int| 0 <= k < remaining@.len() implies #[trigger] remaining@[k]
                    < rows@.len() by {
                    assert(remaining@.to_set().contains(remaining@[k]));
                }
                assert(!remaining@.contains(idx)) by {
                    if remaining@.contains(idx) {
                        assert(remaining@.to_set().contains(idx));
                    }
                }
            }
            insert_by_rows(&mut remaining, idx, rows);
            assert(left(idx + 1) =~= left(idx as int).insert(idx));
        } else {
            assert(left(idx + 1) =~= left(idx as int));
        }
        idx = idx + 1;
    }
    assert(left(n as int) =~= Set::new(|i: usize| i < rows@.len() && !visited@[i as int]));
    proof {
        lemma_ordered_is(rows@, remaining@, left(n as int));
    }
    let ghost mid = state_view(stack@, visited@, ordered@);
    assert(stack@.len() == 0);
    push_root_frames(&mut stack, &remaining, true);
    assert(frames_view(Seq::<Frame>::empty()) =~= Seq::<WalkFrame>::empty());
    walk_pending(rows, tree, collapsed_pids, &mut stack, &mut visited, &mut ordered);
    proof {
        let c = collapsed_pids@;
        let start = walk_start(rows@);
        let second = WalkState {
            stack: root_frames(leftover_rows(rows@, first.visited), true),
            visited: first.visited,
            out: first.out,
        };
        let last = walk_run(rows@, c, second);
        assert(walk_inv(rows@, c, start));
        lemma_walk_run_inv(rows@, c, start);
        assert(walk_inv(rows@, c, second));
        lemma_walk_run_inv(rows@, c, second);
        lemma_walk_run_covers(rows@, c, second);
        assert forall|i: int| 0 <= i < rows@.len() implies #[trigger] last.visited[i] by {
            if !first.visited[i] {
                assert(left(n as int).contains(i as usize));
                assert(remaining@.to_set().contains(i as usize));
                let a = remaining@.index_of(i as usize);
                let k = remaining@.len() - 1 - a;
                assert(second.stack[k].node == i);
            }
        }
        if c == Set::<i32>::empty() {
            assert(no_hide_steps(start.stack));
            assert(reached_are_drawn(start));
            lemma_walk_run_draws_reached(rows@, c, start);
            assert(no_hide_steps(second.stack));
            assert(reached_are_drawn(second));
            lemma_walk_run_draws_reached(rows@, c, second);
            assert forall|i: int| 0 <= i < rows@.len() implies #[trigger] drawn(last.out, i) by {
                assert(last.visited[i]);
            }
        }
        assert(display_view(rows@, c) == last.out);
    }
    ordered
}

/// What the drawn rows always satisfy: each names a real row, no row is drawn twice, a row
/// is marked collapsed exactly when it has children and its pid is collapsed, and with
/// nothing collapsed every row is drawn.
pub open spec fn display_facts(
    rows: Seq<ProcRow>,
    collapsed: Set<i32>,
    v: Seq<(usize, Seq<char>, bool, bool)>,
) -> bool {
    &&& forall|k: int| 0 <= k < v.len() ==> (#[trigger] v[k]).0 < rows.len()
    &&& forall|k: int, l: int| 0 <= k < l < v.len() ==> (#[trigger] v[k]).0 != (#[trigger] v[l]).0
    &&& forall|k: int|
        0 <= k < v.len() ==> ((#[trigger] v[k]).3 <==> v[k].2 && collapsed.contains(
            rows[v[k].0 as int].pid,
        ))
    &&& collapsed == Set::<i32>::empty() ==> forall|i: int|
        0 <= i < rows.len() ==> #[trigger] drawn(v, i)
}

/// Row `i` is among the drawn rows.
pub open spec fn drawn(v: Seq<(usize, Seq<char>, bool, bool)>, i: int) -> bool {
    exists|k: int| 0 <= k < v.len() && (#[trigger] v[k]).0 == i
}

/// Build visible tree rows with connector prefixes and collapse metadata.
pub fn display_rows(rows: &[ProcRow], collapsed_pids: &HashSet<i32>) -> (r: Vec<DisplayRow>)
    ensures
        rows_view(r@) == display_view(rows@, collapsed_pids@),
        display_facts(rows@, collapsed_pids@, display_view(rows@, collapsed_pids@)),
{
    let tree = TreeLayout::build(rows);
    walk_display_rows(rows, &tree, collapsed_pids)
}

/// Build display order with tree connector prefixes.
pub fn display_order_with_prefix(rows: &[ProcRow], collapsed_pids: &HashSet<i32>) -> (r: Vec<
    (usize, String),
>)
    ensures
        r@.len() == display_view(rows@, collapsed_pids@).len(),
        forall|i: int|
            0 <= i < r@.len() ==> (#[trigger] r@[i]).0 == display_view(rows@, collapsed_pids@)[i].0
                && r@[i].1@ == display_view(rows@, collapsed_pids@)[i].1,
{
    let display = display_rows(rows, collapsed_pids);
    let mut out: Vec<(usize, String)> = Vec::new();
    let mut i: usize = 0;
    while i < display.len()
        invariant
            i <= display@.len(),
            out@.len() == i,
            rows_view(display@) == display_view(rows@, collapsed_pids@),
            forall|k: int|
                0 <= k < i ==> (#[trigger] out@[k]).0 == display@[k].row_index && out@[k].1@
                    == display@[k].prefix@,
        decreases display@.len() - i,
    {
        out.push((display[i].row_index, display[i].prefix.clone()));
        i = i + 1;
    }
    out
}

/// Build display order as backing-row indices only.
pub fn display_order_indices(rows: &[ProcRow], collapsed_pids: &HashSet<i32>) -> (r: Vec<usize>)
    ensures
        r@ == display_view(rows@, collapsed_pids@).map_values(
            |d: (usize, Seq<char>, bool, bool)| d.0,
        ),
        display_facts(rows@, collapsed_pids@, display_view(rows@, collapsed_pids@)),
{
    let display = display_rows(rows, collapsed_pids);
    let mut out: Vec<usize> = Vec::new();
    let mut i: usize = 0;
    while i < display.len()
        invariant
            i <= display@.len(),
            out@.len() == i,
            rows_view(display@) == display_view(rows@, collapsed_pids@),
            forall|k: int| 0 <= k < i ==> #[trigger] out@[k] == display@[k].row_index,
        decreases display@.len() - i,
    {
        out.push(display[i].row_index);
        i = i + 1;
    }
    assert(out@ =~= display_view(rows@, collapsed_pids@).map_values(
        |d: (usize, Seq<char>, bool, bool)| d.0,
    ));
    out
}

} // verus!

verus! {

/// Facts the walk keeps: drawn rows are reached, in range and distinct, and a row is marked
/// collapsed exactly when it has children and its pid is in the collapsed set.
pub open spec fn walk_inv(rows: Seq<ProcRow>, collapsed: Set<i32>, s: WalkState) -> bool {
    &&& s.visited.len() == rows.len()
    &&& forall|k: int|
        0 <= k < s.out.len() ==> (#[trigger] s.out[k]).0 < rows.len() && s.visited[s.out[k].0 as int]
    &&& forall|k: int, l: int|
        0 <= k < l < s.out.len() ==> (#[trigger] s.out[k]).0 != (#[trigger] s.out[l]).0
    &&& forall|k: int|
        0 <= k < s.out.len() ==> ((#[trigger] s.out[k]).3 <==> s.out[k].2 && collapsed.contains(
            rows[s.out[k].0 as int].pid,
        ))
}

/// One step keeps the walk facts.
proof fn lemma_walk_step_inv(rows: Seq<ProcRow>, collapsed: Set<i32>, s: WalkState)
    requires
        s.stack.len() > 0,
        walk_inv(rows, collapsed, s),
    ensures
        walk_inv(rows, collapsed, walk_step(rows, collapsed, s)),
{
    let t = walk_step(rows, collapsed, s);
    let f = s.stack.last();
    if !(f.node >= s.visited.len() || s.visited[f.node as int]) && !f.hide {
        assert forall|k: int| 0 <= k < t.out.len() implies (#[trigger] t.out[k]).0 < rows.len()
            && t.visited[t.out[k].0 as int] by {
            if k < s.out.len() {
                assert(t.out[k] == s.out[k]);
            }
        }
        assert forall|k: int, l: int| 0 <= k < l < t.out.len() implies (#[trigger] t.out[k]).0
            != (#[trigger] t.out[l]).0 by {
            if l < s.out.len() {
                assert(t.out[k] == s.out[k]);
                assert(t.out[l] == s.out[l]);
            } else {
                assert(t.out[k] == s.out[k]);
                assert(s.visited[s.out[k].0 as int]);
            }
        }
        assert forall|k: int| 0 <= k < t.out.len() implies ((#[trigger] t.out[k]).3 <==> t.out[k].2
            && collapsed.contains(rows[t.out[k].0 as int].pid)) by {
            if k < s.out.len() {
                assert(t.out[k] == s.out[k]);
            }
        }
    }
}

/// A full run keeps the walk facts.
proof fn lemma_walk_run_inv(rows: Seq<ProcRow>, collapsed: Set<i32>, s: WalkState)
    requires
        walk_inv(rows, collapsed, s),
    ensures
        walk_inv(rows, collapsed, walk_run(rows, collapsed, s)),
    decreases count_unvisited(s.visited), s.stack.len(),
{
    if s.stack.len() > 0 {
        lemma_walk_step_progress(rows, collapsed, s);
        lemma_walk_step_inv(rows, collapsed, s);
        lemma_walk_run_inv(rows, collapsed, walk_step(rows, collapsed, s));
    }
}

/// A run reaches every row that a pending step names, and forgets no reached row.
proof fn lemma_walk_run_covers(rows: Seq<ProcRow>, collapsed: Set<i32>, s: WalkState)
    ensures
        walk_run(rows, collapsed, s).visited.len() == s.visited.len(),
        forall|i: int|
            0 <= i < s.visited.len() && s.visited[i] ==> #[trigger] walk_run(
                rows,
                collapsed,
                s,
            ).visited[i],
        forall|k: int|
            0 <= k < s.stack.len() && (#[trigger] s.stack[k]).node < s.visited.len() ==> walk_run(
                rows,
                collapsed,
                s,
            ).visited[s.stack[k].node as int],
    decreases count_unvisited(s.visited), s.stack.len(),
{
    if s.stack.len() > 0 {
        let t = walk_step(rows, collapsed, s);
        lemma_walk_step_progress(rows, collapsed, s);
        lemma_walk_run_covers(rows, collapsed, t);
        let r = walk_run(rows, collapsed, s);
        assert(r == walk_run(rows, collapsed, t));
        assert forall|k: int| 0 <= k < s.stack.len() && (#[trigger] s.stack[k]).node
            < s.visited.len() implies r.visited[s.stack[k].node as int] by {
            if k < s.stack.len() - 1 {
                assert(t.stack[k] == s.stack[k]);
            } else {
                assert(t.visited[s.stack[k].node as int]);
            }
        }
    }
}

/// Steps that only draw rows, never hide them.
pub open spec fn no_hide_steps(stack: Seq<WalkFrame>) -> bool {
    forall|k: int| 0 <= k < stack.len() ==> !(#[trigger] stack[k]).hide
}

/// Every reached row has been drawn.
pub open spec fn reached_are_drawn(s: WalkState) -> bool {
    forall|i: int|
        0 <= i < s.visited.len() && s.visited[i] ==> exists|k: int|
            0 <= k < s.out.len() && (#[trigger] s.out[k]).0 == i
}

/// With nothing collapsed, the walk never hides a row: every reached row is drawn.
proof fn lemma_walk_run_draws_reached(rows: Seq<ProcRow>, collapsed: Set<i32>, s: WalkState)
    requires
        collapsed == Set::<i32>::empty(),
        no_hide_steps(s.stack),
        reached_are_drawn(s),
    ensures
        reached_are_drawn(walk_run(rows, collapsed, s)),
    decreases count_unvisited(s.visited), s.stack.len(),
{
    if s.stack.len() > 0 {
        let t = walk_step(rows, collapsed, s);
        lemma_walk_step_progress(rows, collapsed, s);
        let f = s.stack.last();
        assert(!f.hide);
        assert(no_hide_steps(t.stack));
        assert forall|i: int| 0 <= i < t.visited.len() && t.visited[i] implies exists|k: int|
            0 <= k < t.out.len() && (#[trigger] t.out[k]).0 == i by {
            if 0 <= i < s.visited.len() && s.visited[i] {
                let k = choose|k: int| 0 <= k < s.out.len() && (#[trigger] s.out[k]).0 == i;
                assert(t.out[k] == s.out[k]);
            } else {
                assert(t.out[s.out.len() as int].0 == i);
            }
        }
        lemma_walk_run_draws_reached(rows, collapsed, t);
    }
}

} // verus!

verus! {

/// The drawn rows name real rows, no row is drawn twice, and a row is marked collapsed exactly
/// when it has children and its pid is collapsed.
pub proof fn lemma_drawn_rows_distinct(rows: Seq<ProcRow>, collapsed: Set<i32>)
    ensures
        forall|k: int|
            0 <= k < display_view(rows, collapsed).len() ==> (#[trigger] display_view(
                rows,
                collapsed,
            )[k]).0 < rows.len(),
        forall|k: int, l: int|
            0 <= k < l < display_view(rows, collapsed).len() ==> (#[trigger] display_view(
                rows,
                collapsed,
            )[k]).0 != (#[trigger] display_view(rows, collapsed)[l]).0,
        forall|k: int|
            0 <= k < display_view(rows, collapsed).len() ==> ((#[trigger] display_view(
                rows,
                collapsed,
            )[k]).3 <==> display_view(rows, collapsed)[k].2 && collapsed.contains(
                rows[display_view(rows, collapsed)[k].0 as int].pid,
            )),
{
    let start = walk_start(rows);
    assert(walk_inv(rows, collapsed, start));
    lemma_walk_run_inv(rows, collapsed, start);
    let first = walk_run(rows, collapsed, start);
    let second = WalkState {
        stack: root_frames(leftover_rows(rows, first.visited), true),
        visited: first.visited,
        out: first.out,
    };
    assert(walk_inv(rows, collapsed, second));
    lemma_walk_run_inv(rows, collapsed, second);
}

} // verus!

verus! {

/// A run only appends to the drawn rows.
proof fn lemma_walk_run_extends(rows: Seq<ProcRow>, collapsed: Set<i32>, s: WalkState)
    ensures
        walk_run(rows, collapsed, s).out.len() >= s.out.len(),
        forall|k: int| 0 <= k < s.out.len() ==> #[trigger] walk_run(rows, collapsed, s).out[k] == s.out[k],
    decreases count_unvisited(s.visited), s.stack.len(),
{
    if s.stack.len() > 0 {
        let t = walk_step(rows, collapsed, s);
        lemma_walk_step_progress(rows, collapsed, s);
        lemma_walk_run_extends(rows, collapsed, t);
        assert forall|k: int| 0 <= k < s.out.len() implies #[trigger] walk_run(rows, collapsed, s).out[k]
            == s.out[k] by {
            assert(t.out[k] == s.out[k]);
        }
    }
}

/// Whether the next step of the walk draws a row with pid `pid`.
pub open spec fn draws_pid_next(rows: Seq<ProcRow>, s: WalkState, pid: i32) -> bool {
    let f = s.stack.last();
    &&& !(f.node >= s.visited.len() || s.visited[f.node as int])
    &&& !f.hide
    &&& rows[f.node as int].pid == pid
}

/// Adding `pid` to the collapsed set changes a run only from the first row with that pid on:
/// before it the runs agree, and that row is drawn at the same place with the same prefix,
/// now marked collapsed when it has children. Without such a row the runs are the same.
proof fn lemma_walk_run_collapse(rows: Seq<ProcRow>, collapsed: Set<i32>, pid: i32, s: WalkState)
    ensures
        (forall|k: int|
            s.out.len() <= k < walk_run(rows, collapsed, s).out.len() ==> rows[(#[trigger] walk_run(
                rows,
                collapsed,
                s,
            ).out[k]).0 as int].pid != pid) ==> walk_run(rows, collapsed.insert(pid), s) == walk_run(
            rows,
            collapsed,
            s,
        ),
        forall|k: int|
            s.out.len() <= k < walk_run(rows, collapsed, s).out.len() && rows[(#[trigger] walk_run(
                rows,
                collapsed,
                s,
            ).out[k]).0 as int].pid == pid && (forall|j: int|
                s.out.len() <= j < k ==> rows[walk_run(rows, collapsed, s).out[j].0 as int].pid
                    != pid) ==> k < walk_run(rows, collapsed.insert(pid), s).out.len() && (forall|j: int|
                0 <= j < k ==> walk_run(rows, collapsed.insert(pid), s).out[j] == walk_run(
                    rows,
                    collapsed,
                    s,
                ).out[j]) && walk_run(
                rows,
                collapsed.insert(pid),
                s,
            ).out[k] == (
                walk_run(rows, collapsed, s).out[k].0,
                walk_run(rows, collapsed, s).out[k].1,
                walk_run(rows, collapsed, s).out[k].2,
                walk_run(rows, collapsed, s).out[k].2,
            ),
    decreases count_unvisited(s.visited), s.stack.len(),
{
    let d = collapsed.insert(pid);
    if s.stack.len() > 0 {
        lemma_walk_step_progress(rows, collapsed, s);
        let t = walk_step(rows, collapsed, s);
        let td = walk_step(rows, d, s);
        let r = walk_run(rows, collapsed, s);
        let rd = walk_run(rows, d, s);
        assert(r == walk_run(rows, collapsed, t));
        assert(rd == walk_run(rows, d, td));
        if draws_pid_next(rows, s, pid) {
            let n = s.out.len() as int;
            lemma_walk_run_extends(rows, collapsed, t);
            lemma_walk_step_progress(rows, d, s);
            lemma_walk_run_extends(rows, d, td);
            assert(r.out[n] == t.out[n]);
            assert(rd.out[n] == td.out[n]);
            assert(rows[r.out[n].0 as int].pid == pid);
            assert forall|k: int|
                s.out.len() <= k < r.out.len() && rows[(#[trigger] r.out[k]).0 as int].pid == pid
                    && (forall|j: int| s.out.len() <= j < k ==> rows[r.out[j].0 as int].pid != pid)
                implies k < rd.out.len() && (forall|j: int| 0 <= j < k ==> rd.out[j] == r.out[j])
                && rd.out[k] == (r.out[k].0, r.out[k].1, r.out[k].2, r.out[k].2) by {
                if k > n {
                    assert(rows[r.out[n].0 as int].pid != pid);
                }
                assert forall|j: int| 0 <= j < k implies rd.out[j] == r.out[j] by {
                    assert(rd.out[j] == td.out[j]);
                    assert(r.out[j] == t.out[j]);
                }
            }
        } else {
            assert(t == td);
            lemma_walk_step_progress(rows, d, s);
            lemma_walk_run_collapse(rows, collapsed, pid, t);
            lemma_walk_run_extends(rows, collapsed, t);
            lemma_walk_run_extends(rows, d, t);
            if t.out.len() > s.out.len() {
                let n = s.out.len() as int;
                assert(t.out[n].0 == s.stack.last().node);
                assert(r.out[n] == t.out[n]);
                assert(rows[r.out[n].0 as int].pid != pid);
            }
        }
    }
}

} // verus!

verus! {

/// When pids are unique, collapsing the pid of a drawn row that has children keeps that row
/// drawn at the same place, now marked collapsed.
pub proof fn lemma_collapse_keeps_row(rows: Seq<ProcRow>, collapsed: Set<i32>, k: int)
    requires
        forall|i: int, j: int| 0 <= i < j < rows.len() ==> (#[trigger] rows[i]).pid != (#[trigger] rows[j]).pid,
        0 <= k < display_view(rows, collapsed).len(),
        display_view(rows, collapsed)[k].2,
    ensures
        k < display_view(
            rows,
            collapsed.insert(rows[display_view(rows, collapsed)[k].0 as int].pid),
        ).len(),
        display_view(rows, collapsed.insert(rows[display_view(rows, collapsed)[k].0 as int].pid))[k].0
            == display_view(rows, collapsed)[k].0,
        display_view(rows, collapsed.insert(rows[display_view(rows, collapsed)[k].0 as int].pid))[k].3,
{
    let v = display_view(rows, collapsed);
    let p = rows[v[k].0 as int].pid;
    let d = collapsed.insert(p);
    lemma_drawn_rows_distinct(rows, collapsed);
    assert forall|j: int| 0 <= j < v.len() && j != k implies rows[(#[trigger] v[j]).0 as int].pid != p by {
        let a = v[j].0 as int;
        let b = v[k].0 as int;
        assert(a != b);
        if a < b {
            assert(rows[a].pid != rows[b].pid);
        } else {
            assert(rows[b].pid != rows[a].pid);
        }
    }
    let start = walk_start(rows);
    let first = walk_run(rows, collapsed, start);
    let second = WalkState {
        stack: root_frames(leftover_rows(rows, first.visited), true),
        visited: first.visited,
        out: first.out,
    };
    let first_d = walk_run(rows, d, start);
    let second_d = WalkState {
        stack: root_frames(leftover_rows(rows, first_d.visited), true),
        visited: first_d.visited,
        out: first_d.out,
    };
    let w = display_view(rows, d);
    assert(v == walk_run(rows, collapsed, second).out);
    assert(w == walk_run(rows, d, second_d).out);
    lemma_walk_run_extends(rows, collapsed, second);
    lemma_walk_run_collapse(rows, collapsed, p, start);
    if k < first.out.len() {
        assert(first.out[k] == v[k]);
        assert forall|j: int| 0 <= j < k implies rows[first.out[j].0 as int].pid != p by {
            assert(first.out[j] == v[j]);
        }
        assert(k < first_d.out.len());
        lemma_walk_run_extends(rows, d, second_d);
        assert(w[k] == first_d.out[k]);
    } else {
        assert forall|j: int| 0 <= j < first.out.len() implies rows[(#[trigger] first.out[j]).0 as int].pid
            != p by {
            assert(first.out[j] == v[j]);
        }
        assert(first_d == first);
        assert(second_d == second);
        lemma_walk_run_collapse(rows, collapsed, p, second);
        assert forall|j: int| second.out.len() <= j < k implies rows[v[j].0 as int].pid != p by {}
    }
}

} // verus!

verus! {

/// Adding `pid` to the collapsed set changes the drawn rows only from the first row with that
/// pid on: the rows before it stay, and that row stays at its place, marked collapsed when it
/// has children. Without a drawn row of that pid nothing changes.
pub proof fn lemma_display_collapse(rows: Seq<ProcRow>, collapsed: Set<i32>, pid: i32)
    ensures
        (forall|k: int|
            0 <= k < display_view(rows, collapsed).len() ==> rows[(#[trigger] display_view(
                rows,
                collapsed,
            )[k]).0 as int].pid != pid) ==> display_view(rows, collapsed.insert(pid)) == display_view(
            rows,
            collapsed,
        ),
        forall|k: int|
            0 <= k < display_view(rows, collapsed).len() && rows[(#[trigger] display_view(
                rows,
                collapsed,
            )[k]).0 as int].pid == pid && (forall|j: int|
                0 <= j < k ==> rows[display_view(rows, collapsed)[j].0 as int].pid != pid) ==> k
                < display_view(rows, collapsed.insert(pid)).len() && (forall|j: int|
                0 <= j < k ==> display_view(rows, collapsed.insert(pid))[j] == display_view(
                    rows,
                    collapsed,
                )[j]) && display_view(rows, collapsed.insert(pid))[k] == (
                display_view(rows, collapsed)[k].0,
                display_view(rows, collapsed)[k].1,
                display_view(rows, collapsed)[k].2,
                display_view(rows, collapsed)[k].2,
            ),
{
    let d = collapsed.insert(pid);
    let v = display_view(rows, collapsed);
    let w = display_view(rows, d);
    let start = walk_start(rows);
    let first = walk_run(rows, collapsed, start);
    let second = WalkState {
        stack: root_frames(leftover_rows(rows, first.visited), true),
        visited: first.visited,
        out: first.out,
    };
    let first_d = walk_run(rows, d, start);
    let second_d = WalkState {
        stack: root_frames(leftover_rows(rows, first_d.visited), true),
        visited: first_d.visited,
        out: first_d.out,
    };
    assert(v == walk_run(rows, collapsed, second).out);
    assert(w == walk_run(rows, d, second_d).out);
    lemma_walk_run_extends(rows, collapsed, second);
    lemma_walk_run_extends(rows, d, second_d);
    lemma_walk_run_collapse(rows, collapsed, pid, start);
    if exists|k: int| 0 <= k < first.out.len() && rows[(#[trigger] first.out[k]).0 as int].pid == pid {
        let k0 = choose|k: int| 0 <= k < first.out.len() && rows[(#[trigger] first.out[k]).0 as int].pid == pid;
        let k = lemma_first_pid_at(rows, first.out, pid, k0);
        assert(v[k] == first.out[k]);
        assert forall|j: int| 0 <= j < k implies rows[first.out[j].0 as int].pid != pid by {
            assert(first.out[j] == v[j]);
        }
        assert(k < first_d.out.len());
        assert forall|m: int|
            0 <= m < v.len() && rows[(#[trigger] v[m]).0 as int].pid == pid && (forall|j: int|
                0 <= j < m ==> rows[v[j].0 as int].pid != pid) implies m < w.len() && (forall|j: int|
                0 <= j < m ==> w[j] == v[j]) && w[m] == (v[m].0, v[m].1, v[m].2, v[m].2) by {
            if m < k {
                assert(rows[v[m].0 as int].pid != pid);
            }
            if m > k {
                assert(rows[v[k].0 as int].pid != pid);
            }
            assert forall|j: int| 0 <= j < m implies w[j] == v[j] by {
                assert(w[j] == first_d.out[j]);
                assert(v[j] == first.out[j]);
            }
            assert(w[m] == first_d.out[m]);
        }
    } else {
        assert(first_d == first);
        assert(second_d == second);
        lemma_walk_run_collapse(rows, collapsed, pid, second);
        assert forall|m: int|
            0 <= m < v.len() && rows[(#[trigger] v[m]).0 as int].pid == pid && (forall|j: int|
                0 <= j < m ==> rows[v[j].0 as int].pid != pid) implies m < w.len() && (forall|j: int|
                0 <= j < m ==> w[j] == v[j]) && w[m] == (v[m].0, v[m].1, v[m].2, v[m].2) by {
            if m < first.out.len() {
                assert(v[m] == first.out[m]);
            }
        }
    }
}

/// The first index of a row with `pid` in `out`, given that one exists at or below `k`.
pub proof fn lemma_first_pid_at(rows: Seq<ProcRow>, out: Seq<(usize, Seq<char>, bool, bool)>, pid: i32, k: int) -> (first: int)
    requires
        0 <= k < out.len(),
        rows[out[k].0 as int].pid == pid,
    ensures
        0 <= first <= k,
        rows[out[first].0 as int].pid == pid,
        forall|j: int| 0 <= j < first ==> rows[out[j].0 as int].pid != pid,
    decreases k,
{
    if exists|j: int| 0 <= j < k && rows[(#[trigger] out[j]).0 as int].pid == pid {
        let j = choose|j: int| 0 <= j < k && rows[(#[trigger] out[j]).0 as int].pid == pid;
        lemma_first_pid_at(rows, out, pid, j)
    } else {
        k
    }
}

} // verus!

verus! {

/// The guide of a drawn row has two characters per ancestor level, in order: a bar and a
/// space for a level with a later sibling, two spaces for a level without one.
pub proof fn lemma_guide_columns(anc: Seq<bool>)
    ensures
        guide_prefix(anc).len() == 2 * anc.len(),
        forall|k: int|
            0 <= k < anc.len() ==> guide_prefix(anc)[2 * k] == (if #[trigger] anc[k] {
                '│'
            } else {
                ' '
            }) && guide_prefix(anc)[2 * k + 1] == ' ',
    decreases anc.len(),
{
    reveal_strlit("│ ");
    reveal_strlit("  ");
    if anc.len() > 0 {
        let init = anc.drop_last();
        lemma_guide_columns(init);
        let g = guide_prefix(init);
        let tail: Seq<char> = if anc.last() {
            "│ "@
        } else {
            "  "@
        };
        assert(guide_prefix(anc) == g + tail);
        assert forall|k: int| 0 <= k < anc.len() implies guide_prefix(anc)[2 * k] == (if #[trigger] anc[k] {
            '│'
        } else {
            ' '
        }) && guide_prefix(anc)[2 * k + 1] == ' ' by {
            if k < init.len() {
                assert(init[k] == anc[k]);
                assert(guide_prefix(anc)[2 * k] == g[2 * k]);
                assert(guide_prefix(anc)[2 * k + 1] == g[2 * k + 1]);
            } else {
                assert(k == anc.len() - 1);
                assert(guide_prefix(anc)[2 * k] == tail[0]);
                assert(guide_prefix(anc)[2 * k + 1] == tail[1]);
            }
        }
    }
}

/// A drawn row's prefix is its guide followed by its own connector: none for a top-level
/// row, a corner for the last of its siblings and a tee for the others.
pub proof fn lemma_row_prefix_connector(anc: Seq<bool>, is_last: bool, is_root: bool)
    ensures
        row_prefix(anc, is_last, is_root).subrange(0, 2 * anc.len() as int) == guide_prefix(anc),
        is_root ==> row_prefix(anc, is_last, is_root).len() == 2 * anc.len(),
        !is_root ==> row_prefix(anc, is_last, is_root).len() == 2 * anc.len() + 2
            && row_prefix(anc, is_last, is_root)[2 * anc.len() as int] == (if is_last {
            '└'
        } else {
            '├'
        }) && row_prefix(anc, is_last, is_root)[2 * anc.len() + 1int] == '─',
{
    lemma_guide_columns(anc);
    reveal_strlit("└─");
    reveal_strlit("├─");
    let g = guide_prefix(anc);
    let p = row_prefix(anc, is_last, is_root);
    assert(p.subrange(0, g.len() as int) =~= g);
}

} // verus!
