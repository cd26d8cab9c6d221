use crate::binary_tree::iter::pow2;
use crate::binary_tree::{opt_height, Node};
use vstd::prelude::*;
use vstd::string::StrSliceExecFns;
use vstd::string::StringExecFns;

verus! {

/// An optional boxed subtree as a plain optional subtree.
pub open spec fn unbox<T>(o: Option<Box<Node<T>>>) -> Option<Node<T>> {
    match o {
        Option::Some(b) => Option::Some(*b),
        Option::None => Option::None,
    }
}

/// The slots one level below `row`: every present subtree contributes one
/// slot per child, present or blank; a blank slot contributes nothing.
pub open spec fn next_slots<T>(row: Seq<Option<Node<T>>>) -> Seq<Option<Node<T>>>
    decreases row.len(),
{
    if row.len() == 0 {
        Seq::empty()
    } else {
        (match row[0] {
            Option::Some(n) => seq![unbox(n.left), unbox(n.right)],
            Option::None => Seq::empty(),
        }) + next_slots(row.drop_first())
    }
}

/// The slots at depth `d` of the layout of `t`: the root alone at depth
/// zero, below that the children of every slot of the level above.
pub open spec fn slot_row<T>(t: Node<T>, d: nat) -> Seq<Option<Node<T>>>
    decreases d,
{
    if d == 0 {
        seq![Option::Some(t)]
    } else {
        next_slots(slot_row(t, (d - 1) as nat))
    }
}

/// Whether `lab` is a rendering the transform `f` can produce for the
/// value `v`.
pub open spec fn label_of<T, F: Fn(&T) -> String>(f: F, v: T, lab: Seq<char>) -> bool {
    exists|p: &T, s: String| *p == v && #[trigger] call_ensures(f, (p,), s) && s@ == lab
}

/// Whether the first `d` rows of `g` are the level grid rows of `t` under
/// `f`: row `e` has one cell per slot of level `e`, the rendering of the
/// element at every present slot and a one-space blank at every absent one.
pub open spec fn grid_rows_ok<T, F: Fn(&T) -> String>(
    t: Node<T>,
    f: F,
    g: Seq<Seq<Seq<char>>>,
    d: int,
) -> bool {
    &&& forall|e: int| 0 <= e < d ==> (#[trigger] g[e]).len() == slot_row(t, e as nat).len()
    &&& forall|e: int, j: int|
        0 <= e < d && 0 <= j < g[e].len() ==> (match slot_row(t, e as nat)[j] {
            Option::Some(n) => label_of(f, n.data, #[trigger] g[e][j]),
            Option::None => g[e][j] == seq![' '],
        })
}

/// Whether `g` is the level grid of `t` under `f`: one row per level of the
/// tree, each as `grid_rows_ok` describes.
pub open spec fn grid_of<T, F: Fn(&T) -> String>(t: Node<T>, f: F, g: Seq<Seq<Seq<char>>>) -> bool {
    &&& g.len() == t.height() + 1
    &&& grid_rows_ok(t, f, g, g.len() as int)
}

/// Whether `mw` is the width of the widest cell of `g`, and at least one.
pub open spec fn width_of(g: Seq<Seq<Seq<char>>>, mw: nat) -> bool {
    &&& mw >= 1
    &&& forall|d: int, j: int|
        0 <= d < g.len() && 0 <= j < g[d].len() ==> (#[trigger] g[d][j]).len() <= mw
    &&& (mw == 1 || exists|d: int, j: int|
        0 <= d < g.len() && 0 <= j < g[d].len() && (#[trigger] g[d][j]).len() == mw)
}

/// `n` spaces.
pub open spec fn spaces(n: nat) -> Seq<char>
    decreases n,
{
    if n == 0 {
        Seq::empty()
    } else {
        spaces((n - 1) as nat).push(' ')
    }
}

/// `s` centered in a field of `w` characters: the spare space is split
/// evenly, the odd space falling to the right.
pub open spec fn centered(s: Seq<char>, w: nat) -> Seq<char> {
    let pad = (w - s.len()) as nat;
    spaces(pad / 2) + s + spaces((pad - pad / 2) as nat)
}

/// The data cells of one level from slot `j` on: every cell centered to
/// `mw` characters and followed by a gap of `gap` blank units of `mw`
/// spaces each.
pub open spec fn data_cells(row: Seq<Seq<char>>, j: int, mw: nat, gap: nat) -> Seq<char>
    decreases row.len() - j,
{
    if j < 0 || j >= row.len() {
        Seq::empty()
    } else {
        centered(row[j], mw) + spaces(gap * mw) + data_cells(row, j + 1, mw, gap)
    }
}

/// The connector tag of a cell: the branch character where a subtree
/// stands, a blank where none does.
pub open spec fn tag_of(cell: Seq<char>, c: char) -> Seq<char> {
    if cell == seq![' '] {
        seq![' ']
    } else {
        seq![c]
    }
}

/// The connector cells of one level from slot `j` on: under an even slot a
/// left branch centered to `mw`; under an odd slot a gap of `mid_sp` blank
/// units, a right branch centered to `mw`, and a gap of `right_sp` units.
pub open spec fn conn_cells(
    row: Seq<Seq<char>>,
    j: int,
    mw: nat,
    mid_sp: nat,
    right_sp: nat,
) -> Seq<char>
    decreases row.len() - j,
{
    if j < 0 || j >= row.len() {
        Seq::empty()
    } else {
        (if j % 2 == 0 {
            centered(tag_of(row[j], '/'), mw)
        } else {
            spaces(mid_sp * mw) + centered(tag_of(row[j], '\\'), mw) + spaces(right_sp * mw)
        }) + conn_cells(row, j + 1, mw, mid_sp, right_sp)
    }
}

/// The `k` connector lines above one data row, the widest fan first: line
/// `i`, counted from `k - 1` down to zero, is indented `left + i` blank
/// units and fans its branches by `mid - 2 i` and `mid + 2 i` units.
pub open spec fn conn_block(row: Seq<Seq<char>>, k: nat, left: nat, mid: nat, mw: nat) -> Seq<char>
    decreases k,
{
    if k == 0 {
        Seq::empty()
    } else {
        let i = (k - 1) as nat;
        spaces((left + i) * mw) + conn_cells(row, 0, mw, (mid - 2 * i) as nat, (mid + 2 * i) as nat)
            + seq!['\n'] + conn_block(row, i, left, mid, mw)
    }
}

/// The block of level `idx` out of `len`: `2^(len-idx-1)` connector lines
/// (none above the root level) and one data line, indented by
/// `2^(len-idx-1) - 1` blank units with gaps of `2^(len-idx) - 1` units.
pub open spec fn level_block(row: Seq<Seq<char>>, idx: nat, len: nat, mw: nat) -> Seq<char> {
    let left = (pow2((len - idx - 1) as nat) - 1) as nat;
    let mid = (pow2((len - idx) as nat) - 1) as nat;
    (if idx > 0 {
        conn_block(row, pow2((len - idx - 1) as nat), left, mid, mw)
    } else {
        Seq::empty()
    }) + spaces(left * mw) + data_cells(row, 0, mw, mid) + seq!['\n']
}

/// The rendering of the grid from level `idx` on: each level's block in
/// order.
pub open spec fn render_rows(g: Seq<Seq<Seq<char>>>, idx: int, mw: nat) -> Seq<char>
    decreases g.len() - idx,
{
    if idx < 0 || idx >= g.len() {
        Seq::empty()
    } else {
        level_block(g[idx], idx as nat, g.len() as nat, mw) + render_rows(g, idx + 1, mw)
    }
}

/// The full rendering of a level grid with cells `mw` wide.
pub open spec fn render_spec(g: Seq<Seq<Seq<char>>>, mw: nat) -> Seq<char> {
    render_rows(g, 0, mw)
}

/// The views of a row of rendered cells.
pub open spec fn strs_view(v: Seq<String>) -> Seq<Seq<char>> {
    v.map_values(|s: String| s@)
}

/// The views of a whole grid of rendered cells.
pub open spec fn grid_view(g: Seq<Vec<String>>) -> Seq<Seq<Seq<char>>> {
    g.map_values(|r: Vec<String>| strs_view(r@))
}

/// The slots a row of borrowed subtrees stands for.
pub open spec fn slots_view<T>(v: Seq<Option<&Node<T>>>) -> Seq<Option<Node<T>>> {
    v.map_values(
        |o: Option<&Node<T>>|
            match o {
                Option::Some(r) => Option::Some(*r),
                Option::None => Option::None::<Node<T>>,
            },
    )
}

proof fn lemma_spaces_add(a: nat, b: nat)
    ensures
        spaces(a + b) == spaces(a) + spaces(b),
    decreases b,
{
    if b == 0 {
        assert(spaces(a) + spaces(0) =~= spaces(a));
    } else {
        lemma_spaces_add(a, (b - 1) as nat);
        assert(spaces(a + b) == spaces((a + b - 1) as nat).push(' '));
        assert(spaces(a) + spaces((b - 1) as nat).push(' ') =~= (spaces(a) + spaces(
            (b - 1) as nat,
        )).push(' '));
    }
}

fn push_spaces(out: &mut String, n: usize)
    ensures
        final (out)@ == old(out)@ + spaces(n as nat),
{
    proof {
        assert(old(out)@ + spaces(0) =~= old(out)@);
    }
    let mut i: usize = 0;
    while i < n
        invariant
            i <= n,
            out@ == old(out)@ + spaces(i as nat),
        decreases n - i,
    {
        out.append(" ");
        proof {
            reveal_strlit(" ");
            assert(" "@ =~= seq![' ']);
            assert(spaces((i + 1) as nat) == spaces(i as nat).push(' '));
            assert(spaces(i as nat).push(' ') =~= spaces(i as nat) + seq![' ']);
            assert((old(out)@ + spaces(i as nat)) + seq![' '] =~= old(out)@ + (spaces(i as nat)
                + seq![' ']));
        }
        i = i + 1;
    }
}

fn push_blank_units(out: &mut String, units: usize, mw: usize)
    ensures
        final (out)@ == old(out)@ + spaces((units * mw) as nat),
{
    proof {
        assert(old(out)@ + spaces(0) =~= old(out)@);
    }
    let mut i: usize = 0;
    while i < units
        invariant
            i <= units,
            out@ == old(out)@ + spaces((i * mw) as nat),
        decreases units - i,
    {
        push_spaces(out, mw);
        proof {
            lemma_spaces_add((i * mw) as nat, mw as nat);
            assert((i + 1) * mw == i * mw + mw) by (nonlinear_arith);
            assert((old(out)@ + spaces((i * mw) as nat)) + spaces(mw as nat) =~= old(out)@ + (
            spaces((i * mw) as nat) + spaces(mw as nat)));
        }
        i = i + 1;
    }
}

fn push_centered(out: &mut String, s: &str, mw: usize)
    requires
        s@.len() <= mw,
    ensures
        final (out)@ == old(out)@ + centered(s@, mw as nat),
{
    let l = s.unicode_len();
    let pad = mw - l;
    push_spaces(out, pad / 2);
    out.append(s);
    push_spaces(out, pad - pad / 2);
    proof {
        assert(((old(out)@ + spaces((pad / 2) as nat)) + s@) + spaces((pad - pad / 2) as nat) =~=
            old(out)@ + ((spaces((pad / 2) as nat) + s@) + spaces((pad - pad / 2) as nat)));
    }
}

fn push_data_row(out: &mut String, row: &Vec<String>, mw: usize, gap: usize)
    requires
        forall|j: int| 0 <= j < row@.len() ==> (#[trigger] row@[j])@.len() <= mw,
    ensures
        final (out)@ == old(out)@ + data_cells(strs_view(row@), 0, mw as nat, gap as nat),
{
    let ghost rowv = strs_view(row@);
    let mut j: usize = 0;
    proof {
        assert(old(out)@ + data_cells(rowv, 0, mw as nat, gap as nat) =~= old(out)@ + data_cells(
            rowv,
            0,
            mw as nat,
            gap as nat,
        ));
    }
    while j < row.len()
        invariant
            j <= row@.len(),
            rowv == strs_view(row@),
            forall|jj: int| 0 <= jj < row@.len() ==> (#[trigger] row@[jj])@.len() <= mw,
            out@ + data_cells(rowv, j as int, mw as nat, gap as nat) == old(out)@ + data_cells(
                rowv,
                0,
                mw as nat,
                gap as nat,
            ),
        decreases row@.len() - j,
    {
        let ghost pre = out@;
        proof {
            assert(rowv[j as int] == row@[j as int]@);
        }
        push_centered(out, row[j].as_str(), mw);
        push_blank_units(out, gap, mw);
        proof {
            assert(((pre + centered(rowv[j as int], mw as nat)) + spaces((gap * mw) as nat))
                + data_cells(rowv, j + 1, mw as nat, gap as nat) =~= pre + ((centered(
                rowv[j as int],
                mw as nat,
            ) + spaces((gap * mw) as nat)) + data_cells(rowv, j + 1, mw as nat, gap as nat)));
        }
        j = j + 1;
    }
    proof {
        assert(data_cells(rowv, row@.len() as int, mw as nat, gap as nat) == Seq::<char>::empty());
        assert(out@ + Seq::<char>::empty() =~= out@);
    }
}

fn push_conn_cells(out: &mut String, row: &Vec<String>, mw: usize, mid_sp: usize, right_sp: usize)
    requires
        mw >= 1,
    ensures
        final (out)@ == old(out)@ + conn_cells(
            strs_view(row@),
            0,
            mw as nat,
            mid_sp as nat,
            right_sp as nat,
        ),
{
    let ghost rowv = strs_view(row@);
    let mut j: usize = 0;
    while j < row.len()
        invariant
            j <= row@.len(),
            mw >= 1,
            rowv == strs_view(row@),
            out@ + conn_cells(rowv, j as int, mw as nat, mid_sp as nat, right_sp as nat) == old(
                out,
            )@ + conn_cells(rowv, 0, mw as nat, mid_sp as nat, right_sp as nat),
        decreases row@.len() - j,
    {
        let ghost pre = out@;
        let cell = &row[j];
        let blank = cell.as_str().unicode_len() == 1 && cell.as_str().get_char(0) == ' ';
        proof {
            assert(rowv[j as int] == row@[j as int]@);
            if blank {
                assert(cell@ =~= seq![' ']);
            } else {
                if cell@ == seq![' '] {
                    assert(cell@.len() == 1 && cell@[0] == ' ');
                }
            }
        }
        if j % 2 == 0 {
            let t = if blank {
                " "
            } else {
                "/"
            };
            proof {
                reveal_strlit(" ");
                reveal_strlit("/");
                assert(t@ =~= tag_of(rowv[j as int], '/'));
            }
            push_centered(out, t, mw);
            proof {
                assert((pre + centered(tag_of(rowv[j as int], '/'), mw as nat)) + conn_cells(
                    rowv,
                    j + 1,
                    mw as nat,
                    mid_sp as nat,
                    right_sp as nat,
                ) =~= pre + (centered(tag_of(rowv[j as int], '/'), mw as nat) + conn_cells(
                    rowv,
                    j + 1,
                    mw as nat,
                    mid_sp as nat,
                    right_sp as nat,
                )));
            }
        } else {
            let t = if blank {
                " "
            } else {
                "\\"
            };
            proof {
                reveal_strlit(" ");
                reveal_strlit("\\");
                assert(t@ =~= tag_of(rowv[j as int], '\\'));
            }
            push_blank_units(out, mid_sp, mw);
            push_centered(out, t, mw);
            push_blank_units(out, right_sp, mw);
            proof {
                let a = spaces((mid_sp * mw) as nat);
                let b = centered(tag_of(rowv[j as int], '\\'), mw as nat);
                let c = spaces((right_sp * mw) as nat);
                let rest = conn_cells(rowv, j + 1, mw as nat, mid_sp as nat, right_sp as nat);
                assert((((pre + a) + b) + c) + rest =~= pre + (((a + b) + c) + rest));
            }
        }
        j = j + 1;
    }
    proof {
        assert(conn_cells(rowv, row@.len() as int, mw as nat, mid_sp as nat, right_sp as nat)
            == Seq::<char>::empty());
        assert(out@ + Seq::<char>::empty() =~= out@);
    }
}

fn push_conn_block(
    out: &mut String,
    row: &Vec<String>,
    count: usize,
    left: usize,
    mid: usize,
    mw: usize,
)
    requires
        mw >= 1,
        count >= 1,
        2 * (count - 1) <= mid,
        left + count <= usize::MAX,
        mid + 2 * count <= usize::MAX,
    ensures
        final (out)@ == old(out)@ + conn_block(
            strs_view(row@),
            count as nat,
            left as nat,
            mid as nat,
            mw as nat,
        ),
{
    let ghost rowv = strs_view(row@);
    let mut k: usize = count;
    while k > 0
        invariant
            k <= count,
            mw >= 1,
            rowv == strs_view(row@),
            2 * (count - 1) <= mid,
            left + count <= usize::MAX,
            mid + 2 * count <= usize::MAX,
            out@ + conn_block(rowv, k as nat, left as nat, mid as nat, mw as nat) == old(out)@
                + conn_block(rowv, count as nat, left as nat, mid as nat, mw as nat),
        decreases k,
    {
        let ghost pre = out@;
        let i = k - 1;
        push_blank_units(out, left + i, mw);
        push_conn_cells(out, row, mw, mid - 2 * i, mid + 2 * i);
        out.append("\n");
        proof {
            reveal_strlit("\n");
            assert("\n"@ =~= seq!['\n']);
            let a = spaces(((left + i) * mw) as nat);
            let b = conn_cells(rowv, 0, mw as nat, (mid - 2 * i) as nat, (mid + 2 * i) as nat);
            let rest = conn_block(rowv, i as nat, left as nat, mid as nat, mw as nat);
            assert((((pre + a) + b) + seq!['\n']) + rest =~= pre + (((a + b) + seq!['\n']) + rest));
        }
        k = i;
    }
    proof {
        assert(conn_block(rowv, 0, left as nat, mid as nat, mw as nat) == Seq::<char>::empty());
        assert(out@ + Seq::<char>::empty() =~= out@);
    }
}

pub(crate) proof fn lemma_pow2_mono(a: nat, b: nat)
    ensures
        a <= b ==> pow2(a) <= pow2(b),
    decreases b,
{
    if a <= b && a < b {
        lemma_pow2_mono(a, (b - 1) as nat);
    }
}

proof fn lemma_pow2_30()
    ensures
        pow2(30) == 0x4000_0000,
{
    reveal_with_fuel(pow2, 32);
}

fn pow2_exec(k: usize) -> (r: usize)
    requires
        k <= 30,
    ensures
        r as nat == pow2(k as nat),
        1 <= r <= 0x4000_0000,
{
    proof {
        lemma_pow2_30();
        lemma_pow2_mono(k as nat, 30);
    }
    let mut r: usize = 1;
    let mut i: usize = 0;
    while i < k
        invariant
            i <= k,
            k <= 30,
            r as nat == pow2(i as nat),
        decreases k - i,
    {
        proof {
            lemma_pow2_30();
            lemma_pow2_mono((i + 1) as nat, 30);
        }
        r = r * 2;
        i = i + 1;
    }
    proof {
        lemma_pow2_30();
        lemma_pow2_mono(k as nat, 30);
        lemma_pow2_mono(0, k as nat);
    }
    r
}

proof fn lemma_has_node_trans<T>(a: Node<T>, b: Node<T>, c: Node<T>)
    requires
        a.has_node(b),
        b.has_node(c),
    ensures
        a.has_node(c),
    decreases a,
{
    if a == b {
    } else if a.left is Some && a.left->0.has_node(b) {
        lemma_has_node_trans(*a.left->0, b, c);
    } else {
        lemma_has_node_trans(*a.right->0, b, c);
    }
}

proof fn lemma_has_node_contains<T>(t: Node<T>, n: Node<T>)
    requires
        t.has_node(n),
    ensures
        t.contains_value(n.data),
    decreases t,
{
    if t == n {
    } else if t.left is Some && t.left->0.has_node(n) {
        lemma_has_node_contains(*t.left->0, n);
    } else {
        lemma_has_node_contains(*t.right->0, n);
    }
}

proof fn lemma_next_slots_add<T>(a: Seq<Option<Node<T>>>, b: Seq<Option<Node<T>>>)
    ensures
        next_slots(a + b) == next_slots(a) + next_slots(b),
    decreases a.len(),
{
    if a.len() == 0 {
        assert(a + b =~= b);
        assert(next_slots(a) + next_slots(b) =~= next_slots(b));
    } else {
        assert((a + b).drop_first() =~= a.drop_first() + b);
        assert((a + b)[0] == a[0]);
        lemma_next_slots_add(a.drop_first(), b);
        let chunk = match a[0] {
            Option::Some(n) => seq![unbox(n.left), unbox(n.right)],
            Option::None => Seq::<Option<Node<T>>>::empty(),
        };
        assert((chunk + next_slots(a.drop_first())) + next_slots(b) =~= chunk + (next_slots(
            a.drop_first(),
        ) + next_slots(b)));
    }
}

proof fn lemma_next_slots_nodes<T>(t: Node<T>, row: Seq<Option<Node<T>>>)
    requires
        forall|j: int| 0 <= j < row.len() && row[j] is Some ==> t.has_node((#[trigger] row[j])->0),
    ensures
        forall|k: int|
            0 <= k < next_slots(row).len() && next_slots(row)[k] is Some ==> t.has_node(
                (#[trigger] next_slots(row)[k])->0,
            ),
    decreases row.len(),
{
    if row.len() > 0 {
        assert forall|j: int|
            0 <= j < row.drop_first().len() && row.drop_first()[j] is Some implies t.has_node(
            (#[trigger] row.drop_first()[j])->0,
        ) by {
            assert(row.drop_first()[j] == row[j + 1]);
        }
        lemma_next_slots_nodes(t, row.drop_first());
        let chunk = match row[0] {
            Option::Some(n) => seq![unbox(n.left), unbox(n.right)],
            Option::None => Seq::<Option<Node<T>>>::empty(),
        };
        assert forall|k: int|
            0 <= k < next_slots(row).len() && next_slots(row)[k] is Some implies t.has_node(
            (#[trigger] next_slots(row)[k])->0,
        ) by {
            if k < chunk.len() {
                let p = row[0]->0;
                assert(t.has_node(p));
                assert(next_slots(row)[k] == chunk[k]);
                if chunk[k] is Some {
                    let c = chunk[k]->0;
                    if k == 0 {
                        assert(chunk[0] == unbox(p.left));
                        assert(p.left is Some && c == *p.left->0);
                        assert(p.left->0.has_node(c));
                    } else {
                        assert(chunk[1] == unbox(p.right));
                        assert(p.right is Some && c == *p.right->0);
                        assert(p.right->0.has_node(c));
                    }
                    assert(p.has_node(c));
                    lemma_has_node_trans(t, p, c);
                }
            } else {
                assert(next_slots(row)[k] == next_slots(row.drop_first())[k - chunk.len()]);
            }
        }
    }
}

proof fn lemma_slot_row_nodes<T>(t: Node<T>, d: nat)
    ensures
        forall|j: int|
            0 <= j < slot_row(t, d).len() && slot_row(t, d)[j] is Some ==> t.has_node(
                (#[trigger] slot_row(t, d)[j])->0,
            ),
    decreases d,
{
    if d > 0 {
        lemma_slot_row_nodes(t, (d - 1) as nat);
        lemma_next_slots_nodes(t, slot_row(t, (d - 1) as nat));
    }
}

/// Whether the first `j` labels of `labs` render the slots of level `d` of
/// `t` under `f`.
pub open spec fn row_labels_ok<T, F: Fn(&T) -> String>(
    t: Node<T>,
    f: F,
    d: nat,
    labs: Seq<Seq<char>>,
    j: int,
) -> bool {
    forall|jj: int|
        0 <= jj < j ==> (match slot_row(t, d)[jj] {
            Option::Some(n) => label_of(f, n.data, #[trigger] labs[jj]),
            Option::None => labs[jj] == seq![' '],
        })
}

impl<T> Node<T> {
    fn height_exec(&self) -> (h: usize)
        requires
            self.height() < usize::MAX,
        ensures
            h as nat == self.height(),
        decreases *self,
    {
        let lh: usize = match &self.left {
            Option::Some(n) => {
                proof {
                    assert(opt_height(self.left) == 1 + n.height());
                }
                1 + n.height_exec()
            },
            Option::None => 0,
        };
        let rh: usize = match &self.right {
            Option::Some(n) => {
                proof {
                    assert(opt_height(self.right) == 1 + n.height());
                }
                1 + n.height_exec()
            },
            Option::None => 0,
        };
        if lh >= rh {
            lh
        } else {
            rh
        }
    }

    /// Render the tree as text: one data line per level, connector lines
    /// holding `/` and `\` between levels, every column padded to the width
    /// of the widest rendered element, and blanks keeping the place of
    /// absent children so that alignment is preserved. `f` renders one
    /// element; the layout is the one `render_spec` states.
    pub fn render_with<F: Fn(&T) -> String>(&self, f: F) -> (out: String)
        requires
            self.height() < 30,
            forall|p: &T| self.contains_value(*p) ==> #[trigger] call_requires(f, (p,)),
        ensures
            exists|g: Seq<Seq<Seq<char>>>, mw: nat|
                grid_of(*self, f, g) && width_of(g, mw) && out@ == render_spec(g, mw),
    {
        let h = self.height_exec();
        let mut grid: Vec<Vec<String>> = Vec::new();
        let mut cur: Vec<Option<&Node<T>>> = Vec::new();
        cur.push(Option::Some(self));
        proof {
            assert(slots_view(cur@) =~= slot_row(*self, 0));
        }
        let mut d: usize = 0;
        while d <= h
            invariant
                d <= h + 1,
                h as nat == self.height(),
                h < 30,
                forall|p: &T| self.contains_value(*p) ==> #[trigger] call_requires(f, (p,)),
                slots_view(cur@) == slot_row(*self, d as nat),
                grid@.len() == d,
                grid_rows_ok(*self, f, grid_view(grid@), d as int),
            decreases h + 1 - d,
    {
            let ghost rowspec = slot_row(*self, d as nat);
            let mut labels: Vec<String> = Vec::new();
            let mut next: Vec<Option<&Node<T>>> = Vec::new();
            proof {
                lemma_slot_row_nodes(*self, d as nat);
                assert(rowspec.take(0) =~= Seq::<Option<Node<T>>>::empty());
                assert(slots_view(next@) =~= next_slots(Seq::<Option<Node<T>>>::empty()));
            }
            let mut j: usize = 0;
            while j < cur.len()
                invariant
                    j <= cur@.len(),
                    slots_view(cur@) == rowspec,
                    rowspec == slot_row(*self, d as nat),
                    forall|p: &T| self.contains_value(*p) ==> #[trigger] call_requires(f, (p,)),
                    forall|jj: int|
                        0 <= jj < rowspec.len() && rowspec[jj] is Some ==> self.has_node(
                            (#[trigger] rowspec[jj])->0,
                        ),
                    labels@.len() == j,
                    slots_view(next@) == next_slots(rowspec.take(j as int)),
                    row_labels_ok(*self, f, d as nat, strs_view(labels@), j as int),
                decreases cur@.len() - j,
            {
                let ghost prelabs = strs_view(labels@);
                let ghost prenext = slots_view(next@);
                match cur[j] {
                    Option::Some(node) => {
                        proof {
                            assert(slots_view(cur@)[j as int] == Option::Some(*node));
                            assert(rowspec[j as int] is Some && rowspec[j as int]->0 == *node);
                            assert(self.has_node(*node));
                            lemma_has_node_contains(*self, *node);
                        }
                        let dref = node.data();
                        let s = f(dref);
                        proof {
                            assert(label_of(f, node.data, s@));
                        }
                        labels.push(s);
                        match node.left() {
                            Option::Some(l) => next.push(Option::Some(l)),
                            Option::None => next.push(Option::None),
                        }
                        match node.right() {
                            Option::Some(rt) => next.push(Option::Some(rt)),
                            Option::None => next.push(Option::None),
                        }
                        proof {
                            assert(slots_view(next@) =~= prenext + seq![
                                unbox(node.left),
                                unbox(node.right),
                            ]);
                        }
                    },
                    Option::None => {
                        labels.push(" ".to_owned());
                        proof {
                            reveal_strlit(" ");
                            assert(" "@ =~= seq![' ']);
                            assert(slots_view(cur@)[j as int] is None);
                            assert(slots_view(next@) =~= prenext
                                + Seq::<Option<Node<T>>>::empty());
                        }
                    },
                }
                proof {
                    assert(rowspec.take(j + 1) =~= rowspec.take(j as int) + seq![
                        rowspec[j as int],
                    ]);
                    lemma_next_slots_add(rowspec.take(j as int), seq![rowspec[j as int]]);
                    assert(seq![rowspec[j as int]].drop_first() =~= Seq::<
                        Option<Node<T>>,
                    >::empty());
                    assert(next_slots(Seq::<Option<Node<T>>>::empty()) == Seq::<
                        Option<Node<T>>,
                    >::empty());
                    assert(next_slots(seq![rowspec[j as int]]) =~= (match rowspec[j as int] {
                        Option::Some(n) => seq![unbox(n.left), unbox(n.right)],
                        Option::None => Seq::<Option<Node<T>>>::empty(),
                    }));
                    assert(slots_view(next@) =~= next_slots(rowspec.take(j + 1)));
                    assert forall|jj: int| 0 <= jj < j + 1 implies (match slot_row(
                        *self,
                        d as nat,
                    )[jj] {
                        Option::Some(n) => label_of(
                            f,
                            n.data,
                            #[trigger] strs_view(labels@)[jj],
                        ),
                        Option::None => strs_view(labels@)[jj] == seq![' '],
                    }) by {
                        assert(strs_view(labels@)[jj] == labels@[jj]@);
                        if jj < j {
                            assert(prelabs[jj] == labels@[jj]@);
                        }
                    }
                }
                j = j + 1;
            }
            proof {
                assert(rowspec.take(rowspec.len() as int) =~= rowspec);
            }
            let ghost pregrid = grid_view(grid@);
            grid.push(labels);
            cur = next;
            proof {
                assert(grid_view(grid@) =~= pregrid.push(strs_view(labels@)));
                assert forall|e: int| 0 <= e < d + 1 implies (#[trigger] grid_view(
                    grid@,
                )[e]).len() == slot_row(*self, e as nat).len() by {
                    if e < d {
                        assert(grid_view(grid@)[e] == pregrid[e]);
                    } else {
                        assert(grid_view(grid@)[e] == strs_view(labels@));
                    }
                }
                assert forall|e: int, jx: int|
                    0 <= e < d + 1 && 0 <= jx < grid_view(grid@)[e].len() implies (match slot_row(
                    *self,
                    e as nat,
                )[jx] {
                    Option::Some(n) => label_of(f, n.data, #[trigger] grid_view(grid@)[e][jx]),
                    Option::None => grid_view(grid@)[e][jx] == seq![' '],
                }) by {
                    if e < d {
                        assert(grid_view(grid@)[e] == pregrid[e]);
                    } else {
                        assert(grid_view(grid@)[e] == strs_view(labels@));
                    }
                }
                assert(slots_view(cur@) == slot_row(*self, (d + 1) as nat));
            }
            d = d + 1;
        }
        let ghost gv = grid_view(grid@);
        proof {
            assert(gv.len() == h + 1);
            assert(grid_of(*self, f, gv));
        }
        let mut mw: usize = 1;
        let ghost mut we: int = 0;
        let ghost mut wb: int = 0;
        let mut e: usize = 0;
        while e < grid.len()
            invariant
                e <= grid@.len(),
                gv == grid_view(grid@),
                mw >= 1,
                forall|a: int, c: int|
                    0 <= a < e && 0 <= c < gv[a].len() ==> (#[trigger] gv[a][c]).len() <= mw,
                mw == 1 || (0 <= we < gv.len() && 0 <= wb < gv[we].len() && gv[we][wb].len()
                    == mw),
            decreases grid@.len() - e,
        {
            let row = &grid[e];
            let mut b: usize = 0;
            while b < row.len()
                invariant
                    b <= row@.len(),
                    gv == grid_view(grid@),
                    0 <= e < grid@.len(),
                    row@ == grid@[e as int]@,
                    mw >= 1,
                    forall|a: int, c: int|
                        0 <= a < e && 0 <= c < gv[a].len() ==> (#[trigger] gv[a][c]).len() <= mw,
                    forall|c: int| 0 <= c < b ==> (#[trigger] gv[e as int][c]).len() <= mw,
                    mw == 1 || (0 <= we < gv.len() && 0 <= wb < gv[we].len() && gv[we][wb].len()
                        == mw),
                decreases row@.len() - b,
            {
                proof {
                    assert(gv[e as int][b as int] == row@[b as int]@);
                }
                let l = row[b].as_str().unicode_len();
                if l > mw {
                    mw = l;
                    proof {
                        we = e as int;
                        wb = b as int;
                    }
                }
                b = b + 1;
            }
            e = e + 1;
        }
        proof {
            assert(width_of(gv, mw as nat));
        }
        let len = h + 1;
        let mut out = String::new();
        let mut idx: usize = 0;
        proof {
            assert(out@ + render_rows(gv, 0, mw as nat) =~= render_rows(gv, 0, mw as nat));
        }
        while idx < len
            invariant
                idx <= len,
                len == h + 1,
                h < 30,
                gv == grid_view(grid@),
                gv.len() == len,
                mw >= 1,
                forall|a: int, c: int|
                    0 <= a < gv.len() && 0 <= c < gv[a].len() ==> (#[trigger] gv[a][c]).len()
                        <= mw,
                out@ + render_rows(gv, idx as int, mw as nat) == render_rows(gv, 0, mw as nat),
            decreases len - idx,
        {
            let ghost pre = out@;
            let row = &grid[idx];
            proof {
                assert(strs_view(row@) == gv[idx as int]);
                assert forall|jx: int| 0 <= jx < row@.len() implies (#[trigger] row@[jx])@.len()
                    <= mw by {
                    assert(gv[idx as int][jx] == row@[jx]@);
                }
            }
            let units_left = pow2_exec(len - idx - 1) - 1;
            let mid = pow2_exec(len - idx) - 1;
            let ghost rowv = gv[idx as int];
            let ghost leftn = units_left as nat;
            let ghost midn = mid as nat;
            let ghost cb = if idx > 0 {
                conn_block(rowv, pow2((len - idx - 1) as nat), leftn, midn, mw as nat)
            } else {
                Seq::<char>::empty()
            };
            if idx > 0 {
                let count = pow2_exec(len - idx - 1);
                proof {
                    assert(pow2((len - idx) as nat) == 2 * pow2((len - idx - 1) as nat));
                }
                push_conn_block(&mut out, row, count, units_left, mid, mw);
            }
            push_blank_units(&mut out, units_left, mw);
            push_data_row(&mut out, row, mw, mid);
            out.append("\n");
            proof {
                reveal_strlit("\n");
                assert("\n"@ =~= seq!['\n']);
                let sp = spaces((leftn * mw) as nat);
                let dc = data_cells(rowv, 0, mw as nat, midn);
                assert(out@ =~= pre + (((cb + sp) + dc) + seq!['\n']));
                assert(level_block(rowv, idx as nat, len as nat, mw as nat) == ((cb + sp) + dc)
                    + seq!['\n']);
                let rest = render_rows(gv, idx + 1, mw as nat);
                assert(render_rows(gv, idx as int, mw as nat) == level_block(
                    rowv,
                    idx as nat,
                    len as nat,
                    mw as nat,
                ) + rest);
                assert((pre + (((cb + sp) + dc) + seq!['\n'])) + rest =~= pre + ((((cb + sp) + dc)
                    + seq!['\n']) + rest));
            }
            idx = idx + 1;
        }
        proof {
            assert(render_rows(gv, len as int, mw as nat) == Seq::<char>::empty());
            assert(out@ + Seq::<char>::empty() =~= out@);
            assert(grid_of(*self, f, gv) && width_of(gv, mw as nat) && out@ == render_spec(
                gv,
                mw as nat,
            ));
        }
        out
    }
}

} // verus!
