//! A verified text codec for populations. A population is written as a
//! self-describing sequence of decimal numbers: the tree count, then for
//! each tree its node count and one record per node (parent index, joint
//! kind, nine raw genes), numbers separated by commas and records and
//! counts closed by semicolons. Parsing is strict: only a canonical
//! document is accepted, and `deserialise(serialise(p))` returns `p`.

use vstd::prelude::*;
use crate::body::{lemma_shape_eq_from_raws, Joint, ShapeDefinition};
use crate::generic_mutation::{ParamHolder, ParamSet3d, RAW_ONE};
use crate::params::{Dimension, FaceCoord, FaceIndex, Rotation};
use crate::tree::{tree_wf, BodyTree, Population, TreeNode};

verus! {

/// ASCII comma: separates numbers of one record.
pub const SEP: u8 = 44;

/// ASCII semicolon: closes counts and records.
pub const END: u8 = 59;

/// Whether a byte is an ASCII decimal digit.
pub open spec fn is_digit(b: u8) -> bool {
    48 <= b <= 57
}

/// One more than the largest value a `u64` can hold.
pub open spec fn u64_bound() -> int {
    0x10000000000000000
}

/// The decimal digits of `n`, most significant first; empty for 0.
pub open spec fn dec_digits(n: int) -> Seq<u8>
    decreases n,
{
    if n <= 0 {
        Seq::empty()
    } else {
        dec_digits(n / 10).push((48 + n % 10) as u8)
    }
}

/// The canonical decimal spelling of `n`.
pub open spec fn ser_u64(n: int) -> Seq<u8> {
    if n == 0 {
        seq![48u8]
    } else {
        dec_digits(n)
    }
}

/// Number of consecutive digits of `s` starting at `i`.
pub open spec fn num_len(s: Seq<u8>, i: int) -> int
    decreases s.len() - i,
{
    if i < 0 || i >= s.len() || !is_digit(s[i]) {
        0
    } else {
        1 + num_len(s, i + 1)
    }
}

/// Value of the `l` digits of `s` starting at `i`.
pub open spec fn num_val(s: Seq<u8>, i: int, l: int) -> int
    decreases l,
{
    if l <= 0 {
        0
    } else {
        num_val(s, i, l - 1) * 10 + (s[i + l - 1] - 48)
    }
}

/// Parses one canonical decimal number at position `i`: its value and the
/// position just past it. Rejects an absent digit, a leading zero, and a
/// value that does not fit a `u64`.
pub open spec fn parse_u64(s: Seq<u8>, i: int) -> Option<(int, int)> {
    let l = num_len(s, i);
    if l == 0 {
        None
    } else if s[i] == 48 && l > 1 {
        None
    } else if num_val(s, i, l) >= u64_bound() {
        None
    } else {
        Some((num_val(s, i, l), i + l))
    }
}

proof fn lemma_dec_digits_wf(n: int)
    requires
        n >= 1,
    ensures
        dec_digits(n).len() >= 1,
        dec_digits(n)[0] != 48,
        forall|k: int| 0 <= k < dec_digits(n).len() ==> is_digit(#[trigger] dec_digits(n)[k]),
    decreases n,
{
    if n < 10 {
        assert(dec_digits(0) =~= Seq::<u8>::empty());
        assert(dec_digits(n) =~= seq![(48 + n) as u8]);
    } else {
        lemma_dec_digits_wf(n / 10);
        assert(dec_digits(n) == dec_digits(n / 10).push((48 + n % 10) as u8));
        assert(dec_digits(n)[0] == dec_digits(n / 10)[0]);
    }
}

proof fn lemma_ser_u64_wf(n: int)
    requires
        n >= 0,
    ensures
        ser_u64(n).len() >= 1,
        forall|k: int| 0 <= k < ser_u64(n).len() ==> is_digit(#[trigger] ser_u64(n)[k]),
        n >= 1 ==> ser_u64(n)[0] != 48,
{
    if n >= 1 {
        lemma_dec_digits_wf(n);
    }
}

proof fn lemma_num_len_exact(s: Seq<u8>, i: int, l: int)
    requires
        0 <= i,
        0 <= l,
        i + l <= s.len(),
        forall|k: int| 0 <= k < l ==> is_digit(#[trigger] s[i + k]),
        i + l == s.len() || !is_digit(s[i + l]),
    ensures
        num_len(s, i) == l,
    decreases l,
{
    if l > 0 {
        assert(is_digit(s[i + 0]));
        assert forall|k: int| 0 <= k < l - 1 implies is_digit(#[trigger] s[i + 1 + k]) by {
            assert(is_digit(s[i + (k + 1)]));
        }
        lemma_num_len_exact(s, i + 1, l - 1);
    }
}

proof fn lemma_num_val_eq(s1: Seq<u8>, i1: int, s2: Seq<u8>, i2: int, l: int)
    requires
        0 <= l,
        forall|k: int| 0 <= k < l ==> #[trigger] s1[i1 + k] == s2[i2 + k],
    ensures
        num_val(s1, i1, l) == num_val(s2, i2, l),
    decreases l,
{
    if l > 0 {
        lemma_num_val_eq(s1, i1, s2, i2, l - 1);
    }
}

proof fn lemma_dec_digits_val(n: int)
    requires
        n >= 1,
    ensures
        num_val(dec_digits(n), 0, dec_digits(n).len() as int) == n,
    decreases n,
{
    let d = dec_digits(n);
    let prev = dec_digits(n / 10);
    assert(d == prev.push((48 + n % 10) as u8));
    if n < 10 {
        assert(dec_digits(0) =~= Seq::<u8>::empty());
        assert(d =~= seq![(48 + n) as u8]);
        assert(num_val(d, 0, 1) == num_val(d, 0, 0) * 10 + (d[0] - 48));
    } else {
        lemma_dec_digits_val(n / 10);
        lemma_num_val_eq(d, 0, prev, 0, prev.len() as int);
        assert(num_val(d, 0, d.len() as int) == num_val(d, 0, d.len() - 1) * 10 + (d[d.len()
            - 1] - 48));
    }
}

/// Digit strings have non-negative values that only grow as digits are
/// appended.
proof fn lemma_num_val_mono(s: Seq<u8>, i: int, l1: int, l2: int)
    requires
        0 <= l1 <= l2,
        forall|k: int| 0 <= k < l2 ==> is_digit(#[trigger] s[i + k]),
    ensures
        0 <= num_val(s, i, l1) <= num_val(s, i, l2),
    decreases l2,
{
    if l2 > 0 {
        if l1 == l2 {
            lemma_num_val_mono(s, i, l2 - 1, l2 - 1);
            assert(is_digit(s[i + l2 - 1]));
        } else {
            lemma_num_val_mono(s, i, l1, l2 - 1);
            assert(is_digit(s[i + l2 - 1]));
        }
    }
}

/// Parsing a canonical number embedded in a longer document yields the
/// number back, provided no digit follows it.
proof fn lemma_parse_ser_u64(s: Seq<u8>, i: int, n: int)
    requires
        0 <= n < u64_bound(),
        0 <= i,
        i + ser_u64(n).len() <= s.len(),
        s.subrange(i, i + ser_u64(n).len() as int) == ser_u64(n),
        i + ser_u64(n).len() == s.len() || !is_digit(s[i + ser_u64(n).len()]),
    ensures
        parse_u64(s, i) == Some((n, i + ser_u64(n).len() as int)),
{
    let e = ser_u64(n);
    let l = e.len() as int;
    lemma_ser_u64_wf(n);
    assert forall|k: int| 0 <= k < l implies s[i + k] == e[k] && is_digit(
        #[trigger] s[i + k],
    ) by {
        assert(s.subrange(i, i + l)[k] == s[i + k]);
    }
    lemma_num_len_exact(s, i, l);
    assert(s.subrange(i, i + l)[0] == s[i + 0]);
    if n == 0 {
        assert(s[i] == 48);
        assert(num_val(s, i, 1) == num_val(s, i, 0) * 10 + (s[i] - 48));
    } else {
        lemma_dec_digits_val(n);
        lemma_num_val_eq(s, i, e, 0, l);
    }
}

/// Serialization of a list of numbers: each in decimal, separated by
/// commas, the last closed by a semicolon.
pub open spec fn ser_nums(vs: Seq<int>) -> Seq<u8>
    decreases vs.len(),
{
    if vs.len() == 0 {
        Seq::empty()
    } else {
        ser_u64(vs[0]) + seq![
            if vs.len() == 1 {
                END
            } else {
                SEP
            },
        ] + ser_nums(vs.drop_first())
    }
}

/// Parses `cnt` numbers at position `i`, comma-separated, the last closed
/// by a semicolon: the values and the position just past the semicolon.
pub open spec fn parse_nums(s: Seq<u8>, i: int, cnt: nat) -> Option<(Seq<int>, int)>
    decreases cnt,
{
    if cnt == 0 {
        Some((Seq::empty(), i))
    } else {
        match parse_u64(s, i) {
            None => None,
            Some((v, i2)) => {
                let sep: u8 = if cnt == 1 {
                    END
                } else {
                    SEP
                };
                if i2 < s.len() && s[i2] == sep {
                    match parse_nums(s, i2 + 1, (cnt - 1) as nat) {
                        None => None,
                        Some((vs, i3)) => Some((seq![v] + vs, i3)),
                    }
                } else {
                    None
                }
            },
        }
    }
}

proof fn lemma_parse_ser_nums(s: Seq<u8>, i: int, vs: Seq<int>)
    requires
        vs.len() >= 1,
        forall|k: int| 0 <= k < vs.len() ==> 0 <= #[trigger] vs[k] < u64_bound(),
        0 <= i,
        i + ser_nums(vs).len() <= s.len(),
        s.subrange(i, i + ser_nums(vs).len() as int) == ser_nums(vs),
    ensures
        parse_nums(s, i, vs.len() as nat) == Some((vs, i + ser_nums(vs).len() as int)),
    decreases vs.len(),
{
    let whole = ser_nums(vs);
    let e = ser_u64(vs[0]);
    let sep: u8 = if vs.len() == 1 {
        END
    } else {
        SEP
    };
    let rest = ser_nums(vs.drop_first());
    assert(whole == e + seq![sep] + rest);
    lemma_ser_u64_wf(vs[0]);
    assert forall|k: int| 0 <= k < whole.len() implies s[i + k] == whole[k] by {
        assert(s.subrange(i, i + whole.len() as int)[k] == s[i + k]);
    }
    assert(s.subrange(i, i + e.len() as int) =~= e);
    assert(s.subrange(i, i + whole.len() as int)[e.len() as int] == s[i + e.len()]);
    assert(s[i + e.len()] == sep);
    assert(!is_digit(sep));
    lemma_parse_ser_u64(s, i, vs[0]);
    let i2 = i + e.len() as int;
    if vs.len() == 1 {
        assert(rest =~= Seq::<u8>::empty());
        assert(parse_nums(s, i2 + 1, 0) == Some((Seq::<int>::empty(), i2 + 1)));
        assert(seq![vs[0]] + Seq::<int>::empty() =~= vs);
        assert(i2 + 1 == i + whole.len() as int);
    } else {
        assert forall|k: int| 0 <= k < rest.len() implies s.subrange(
            i2 + 1,
            i2 + 1 + rest.len() as int,
        )[k] == rest[k] by {
            assert(s[i2 + 1 + k] == whole[e.len() + 1 + k]);
        }
        assert(s.subrange(i2 + 1, i2 + 1 + rest.len() as int) =~= rest);
        assert(vs.drop_first().len() >= 1);
        lemma_parse_ser_nums(s, i2 + 1, vs.drop_first());
        assert(seq![vs[0]] + vs.drop_first() =~= vs);
        assert(i2 + 1 + rest.len() == i + whole.len());
    }
}

/// The joint kind as a number: 0 for `Ground`, 1 for `Fixed`.
pub open spec fn joint_code(j: Joint) -> int {
    match j {
        Joint::Ground => 0,
        Joint::Fixed => 1,
    }
}

/// The segment whose nine genes carry the given raw values.
pub open spec fn shape_from_raws(g: Seq<int>) -> ShapeDefinition {
    ShapeDefinition::Cuboid {
        dims: ParamSet3d {
            x: Dimension { raw: g[0] as u32 },
            y: Dimension { raw: g[1] as u32 },
            z: Dimension { raw: g[2] as u32 },
        },
        pos: (
            FaceIndex { raw: g[3] as u32 },
            FaceCoord { raw: g[4] as u32 },
            FaceCoord { raw: g[5] as u32 },
        ),
        rot: ParamSet3d {
            x: Rotation { raw: g[6] as u32 },
            y: Rotation { raw: g[7] as u32 },
            z: Rotation { raw: g[8] as u32 },
        },
    }
}

/// The eleven numbers of one node record: parent index, joint kind, and
/// the nine raw genes.
pub open spec fn node_nums(nd: TreeNode) -> Seq<int> {
    seq![
        nd.parent as int,
        joint_code(nd.joint),
        nd.shape.raw_at(0),
        nd.shape.raw_at(1),
        nd.shape.raw_at(2),
        nd.shape.raw_at(3),
        nd.shape.raw_at(4),
        nd.shape.raw_at(5),
        nd.shape.raw_at(6),
        nd.shape.raw_at(7),
        nd.shape.raw_at(8),
    ]
}

/// Whether eleven parsed numbers form a valid node record: the parent fits
/// a handle, the joint kind is known, and every gene is in range.
pub open spec fn node_nums_valid(vs: Seq<int>) -> bool {
    &&& vs.len() == 11
    &&& 0 <= vs[0] <= usize::MAX
    &&& (vs[1] == 0 || vs[1] == 1)
    &&& forall|g: int| 2 <= g < 11 ==> 0 <= #[trigger] vs[g] <= RAW_ONE
}

/// The node a valid record describes.
pub open spec fn node_from_nums(vs: Seq<int>) -> TreeNode {
    TreeNode {
        shape: shape_from_raws(vs.skip(2)),
        parent: vs[0] as usize,
        joint: if vs[1] == 0 {
            Joint::Ground
        } else {
            Joint::Fixed
        },
    }
}

/// One node record: its eleven numbers.
pub open spec fn ser_node(nd: TreeNode) -> Seq<u8> {
    ser_nums(node_nums(nd))
}

/// Parses one node record at position `i`.
pub open spec fn parse_node(s: Seq<u8>, i: int) -> Option<(TreeNode, int)> {
    match parse_nums(s, i, 11) {
        None => None,
        Some((vs, i2)) => if node_nums_valid(vs) {
            Some((node_from_nums(vs), i2))
        } else {
            None
        },
    }
}

proof fn lemma_parse_ser_node(s: Seq<u8>, i: int, nd: TreeNode)
    requires
        nd.shape.inv(),
        nd.shape.count_spec() == 9,
        0 <= i,
        i + ser_node(nd).len() <= s.len(),
        s.subrange(i, i + ser_node(nd).len() as int) == ser_node(nd),
    ensures
        parse_node(s, i) == Some((nd, i + ser_node(nd).len() as int)),
{
    let vs = node_nums(nd);
    nd.shape.lemma_inv();
    assert forall|k: int| 0 <= k < vs.len() implies 0 <= #[trigger] vs[k] < u64_bound() by {
        if k >= 2 {
            assert(vs[k] == nd.shape.raw_at(k - 2));
        }
    }
    lemma_parse_ser_nums(s, i, vs);
    assert(node_nums_valid(vs));
    let back = node_from_nums(vs);
    assert(vs.skip(2)[0] == nd.shape.raw_at(0));
    assert(vs.skip(2)[1] == nd.shape.raw_at(1));
    assert(vs.skip(2)[2] == nd.shape.raw_at(2));
    assert(vs.skip(2)[3] == nd.shape.raw_at(3));
    assert(vs.skip(2)[4] == nd.shape.raw_at(4));
    assert(vs.skip(2)[5] == nd.shape.raw_at(5));
    assert(vs.skip(2)[6] == nd.shape.raw_at(6));
    assert(vs.skip(2)[7] == nd.shape.raw_at(7));
    assert(vs.skip(2)[8] == nd.shape.raw_at(8));
    lemma_shape_eq_from_raws(back.shape, nd.shape);
    assert(back == nd);
}

/// Whether a node may stand at position `idx` of a tree: the root stores
/// itself as parent with a `Ground` joint, every other node's parent
/// precedes it.
pub open spec fn node_ok_at(nd: TreeNode, idx: int) -> bool {
    if idx == 0 {
        nd.parent == 0 && nd.joint == Joint::Ground
    } else {
        (nd.parent as int) < idx
    }
}

/// The node records of `t` from index `j` on.
pub open spec fn ser_nodes(t: Seq<TreeNode>, j: int) -> Seq<u8>
    decreases t.len() - j,
{
    if j < 0 || j >= t.len() {
        Seq::empty()
    } else {
        ser_node(t[j]) + ser_nodes(t, j + 1)
    }
}

/// Parses `cnt` node records at position `i`, validating each against its
/// position `idx`, `idx + 1`, and so on.
pub open spec fn parse_nodes(s: Seq<u8>, i: int, cnt: nat, idx: int) -> Option<
    (Seq<TreeNode>, int),
>
    decreases cnt,
{
    if cnt == 0 {
        Some((Seq::empty(), i))
    } else {
        match parse_node(s, i) {
            None => None,
            Some((nd, i2)) => if node_ok_at(nd, idx) {
                match parse_nodes(s, i2, (cnt - 1) as nat, idx + 1) {
                    None => None,
                    Some((nds, i3)) => Some((seq![nd] + nds, i3)),
                }
            } else {
                None
            },
        }
    }
}

proof fn lemma_parse_ser_nodes(s: Seq<u8>, i: int, t: Seq<TreeNode>, j: int)
    requires
        tree_wf(t),
        0 <= j <= t.len(),
        0 <= i,
        i + ser_nodes(t, j).len() <= s.len(),
        s.subrange(i, i + ser_nodes(t, j).len() as int) == ser_nodes(t, j),
    ensures
        parse_nodes(s, i, (t.len() - j) as nat, j) == Some(
            (t.skip(j), i + ser_nodes(t, j).len() as int),
        ),
    decreases t.len() - j,
{
    if j == t.len() {
        assert(t.skip(j) =~= Seq::<TreeNode>::empty());
    } else {
        let whole = ser_nodes(t, j);
        let e = ser_node(t[j]);
        let rest = ser_nodes(t, j + 1);
        assert(whole == e + rest);
        assert forall|k: int| 0 <= k < whole.len() implies s[i + k] == whole[k] by {
            assert(s.subrange(i, i + whole.len() as int)[k] == s[i + k]);
        }
        assert(s.subrange(i, i + e.len() as int) =~= e);
        assert(t[j].shape.inv());
        lemma_parse_ser_node(s, i, t[j]);
        assert(node_ok_at(t[j], j));
        let i2 = i + e.len() as int;
        assert forall|k: int| 0 <= k < rest.len() implies s.subrange(
            i2,
            i2 + rest.len() as int,
        )[k] == rest[k] by {
            assert(s[i2 + k] == whole[e.len() + k]);
        }
        assert(s.subrange(i2, i2 + rest.len() as int) =~= rest);
        lemma_parse_ser_nodes(s, i2, t, j + 1);
        assert(seq![t[j]] + t.skip(j + 1) =~= t.skip(j));
    }
}

/// One tree: its node count, a semicolon, then its node records.
pub open spec fn ser_tree(t: Seq<TreeNode>) -> Seq<u8> {
    ser_u64(t.len() as int) + seq![END] + ser_nodes(t, 0)
}

/// Parses one tree at position `i`: a positive node count that fits a
/// handle, a semicolon, then that many valid node records.
pub open spec fn parse_tree(s: Seq<u8>, i: int) -> Option<(Seq<TreeNode>, int)> {
    match parse_u64(s, i) {
        None => None,
        Some((cnt, i2)) => if cnt < 1 || cnt > usize::MAX {
            None
        } else if i2 < s.len() && s[i2] == END {
            parse_nodes(s, i2 + 1, cnt as nat, 0)
        } else {
            None
        },
    }
}

proof fn lemma_parse_ser_tree(s: Seq<u8>, i: int, t: Seq<TreeNode>)
    requires
        tree_wf(t),
        t.len() <= usize::MAX,
        0 <= i,
        i + ser_tree(t).len() <= s.len(),
        s.subrange(i, i + ser_tree(t).len() as int) == ser_tree(t),
    ensures
        parse_tree(s, i) == Some((t, i + ser_tree(t).len() as int)),
{
    let whole = ser_tree(t);
    let e = ser_u64(t.len() as int);
    let rest = ser_nodes(t, 0);
    assert(whole == e + seq![END] + rest);
    lemma_ser_u64_wf(t.len() as int);
    assert forall|k: int| 0 <= k < whole.len() implies s[i + k] == whole[k] by {
        assert(s.subrange(i, i + whole.len() as int)[k] == s[i + k]);
    }
    assert(s.subrange(i, i + e.len() as int) =~= e);
    assert(s.subrange(i, i + whole.len() as int)[e.len() as int] == s[i + e.len()]);
    assert(s[i + e.len()] == END);
    assert(!is_digit(END));
    lemma_parse_ser_u64(s, i, t.len() as int);
    let i2 = i + e.len() as int;
    assert forall|k: int| 0 <= k < rest.len() implies s.subrange(
        i2 + 1,
        i2 + 1 + rest.len() as int,
    )[k] == rest[k] by {
        assert(s[i2 + 1 + k] == whole[e.len() + 1 + k]);
    }
    assert(s.subrange(i2 + 1, i2 + 1 + rest.len() as int) =~= rest);
    lemma_parse_ser_nodes(s, i2 + 1, t, 0);
    assert(t.skip(0) =~= t);
}

/// The trees of `p` from index `j` on.
pub open spec fn ser_trees(p: Seq<Seq<TreeNode>>, j: int) -> Seq<u8>
    decreases p.len() - j,
{
    if j < 0 || j >= p.len() {
        Seq::empty()
    } else {
        ser_tree(p[j]) + ser_trees(p, j + 1)
    }
}

/// Parses `cnt` trees at position `i`.
pub open spec fn parse_trees(s: Seq<u8>, i: int, cnt: nat) -> Option<(Seq<Seq<TreeNode>>, int)>
    decreases cnt,
{
    if cnt == 0 {
        Some((Seq::empty(), i))
    } else {
        match parse_tree(s, i) {
            None => None,
            Some((t, i2)) => match parse_trees(s, i2, (cnt - 1) as nat) {
                None => None,
                Some((ts, i3)) => Some((seq![t] + ts, i3)),
            },
        }
    }
}

proof fn lemma_parse_ser_trees(s: Seq<u8>, i: int, p: Seq<Seq<TreeNode>>, j: int)
    requires
        forall|k: int| 0 <= k < p.len() ==> tree_wf(#[trigger] p[k]),
        forall|k: int| 0 <= k < p.len() ==> (#[trigger] p[k]).len() <= usize::MAX,
        0 <= j <= p.len(),
        0 <= i,
        i + ser_trees(p, j).len() <= s.len(),
        s.subrange(i, i + ser_trees(p, j).len() as int) == ser_trees(p, j),
    ensures
        parse_trees(s, i, (p.len() - j) as nat) == Some(
            (p.skip(j), i + ser_trees(p, j).len() as int),
        ),
    decreases p.len() - j,
{
    if j == p.len() {
        assert(p.skip(j) =~= Seq::<Seq<TreeNode>>::empty());
    } else {
        let whole = ser_trees(p, j);
        let e = ser_tree(p[j]);
        let rest = ser_trees(p, j + 1);
        assert(whole == e + rest);
        assert forall|k: int| 0 <= k < whole.len() implies s[i + k] == whole[k] by {
            assert(s.subrange(i, i + whole.len() as int)[k] == s[i + k]);
        }
        assert(s.subrange(i, i + e.len() as int) =~= e);
        lemma_parse_ser_tree(s, i, p[j]);
        let i2 = i + e.len() as int;
        assert forall|k: int| 0 <= k < rest.len() implies s.subrange(
            i2,
            i2 + rest.len() as int,
        )[k] == rest[k] by {
            assert(s[i2 + k] == whole[e.len() + k]);
        }
        assert(s.subrange(i2, i2 + rest.len() as int) =~= rest);
        lemma_parse_ser_trees(s, i2, p, j + 1);
        assert(seq![p[j]] + p.skip(j + 1) =~= p.skip(j));
    }
}

/// One population: its tree count, a semicolon, then its trees.
pub open spec fn ser_pop(p: Seq<Seq<TreeNode>>) -> Seq<u8> {
    ser_u64(p.len() as int) + seq![END] + ser_trees(p, 0)
}

/// Parses a whole document as one population; trailing bytes are
/// rejected.
pub open spec fn parse_pop(s: Seq<u8>) -> Option<Seq<Seq<TreeNode>>> {
    match parse_u64(s, 0) {
        None => None,
        Some((cnt, i2)) => if cnt > usize::MAX {
            None
        } else if i2 < s.len() && s[i2] == END {
            match parse_trees(s, i2 + 1, cnt as nat) {
                None => None,
                Some((ts, i3)) => if i3 == s.len() {
                    Some(ts)
                } else {
                    None
                },
            }
        } else {
            None
        },
    }
}

/// Round trip: parsing a serialized population yields the population
/// back, for any population of well-formed trees — the empty one
/// included.
pub proof fn lemma_round_trip(p: Seq<Seq<TreeNode>>)
    requires
        forall|k: int| 0 <= k < p.len() ==> tree_wf(#[trigger] p[k]),
        forall|k: int| 0 <= k < p.len() ==> (#[trigger] p[k]).len() <= usize::MAX,
        p.len() <= usize::MAX,
    ensures
        parse_pop(ser_pop(p)) == Some(p),
{
    let s = ser_pop(p);
    let e = ser_u64(p.len() as int);
    let rest = ser_trees(p, 0);
    assert(s == e + seq![END] + rest);
    lemma_ser_u64_wf(p.len() as int);
    assert(s.subrange(0, e.len() as int) =~= e);
    assert(s[e.len() as int] == END);
    assert(!is_digit(END));
    lemma_parse_ser_u64(s, 0, p.len() as int);
    let i2 = e.len() as int;
    assert(s.subrange(i2 + 1, i2 + 1 + rest.len() as int) =~= rest);
    lemma_parse_ser_trees(s, i2 + 1, p, 0);
    assert(p.skip(0) =~= p);
    assert(i2 + 1 + rest.len() == s.len());
}

/// The mathematical reading of a list of machine numbers.
pub open spec fn nums_view(vs: Seq<u64>) -> Seq<int> {
    vs.map_values(|v: u64| v as int)
}

/// The mathematical reading of a population: each tree as its node
/// sequence.
pub open spec fn pop_view(p: Seq<BodyTree>) -> Seq<Seq<TreeNode>> {
    p.map_values(|t: BodyTree| t@)
}

/// Appends the canonical decimal spelling of `v`.
fn push_u64(out: &mut Vec<u8>, v: u64)
    ensures
        final(out)@ == old(out)@ + ser_u64(v as int),
{
    let ghost base = out@;
    if v == 0 {
        out.push(48);
        proof {
            assert(out@ =~= base + ser_u64(0));
        }
        return ;
    }
    let mut tmp: Vec<u8> = Vec::new();
    let mut x = v;
    while x > 0
        invariant
            dec_digits(v as int) == dec_digits(x as int) + tmp@.reverse(),
            out@ == base,
        decreases x,
    {
        let ghost x0 = x as int;
        let ghost t0 = tmp@;
        let d = (x % 10) as u8 + 48;
        tmp.push(d);
        x = x / 10;
        proof {
            assert(dec_digits(x0) == dec_digits(x0 / 10).push((48 + x0 % 10) as u8));
            assert(t0.push(d).reverse() =~= seq![d] + t0.reverse());
            assert(dec_digits(x0 / 10).push(d) + t0.reverse() =~= dec_digits(x0 / 10) + (seq![d]
                + t0.reverse()));
        }
    }
    proof {
        assert(dec_digits(0int) =~= Seq::<u8>::empty());
        assert(dec_digits(v as int) =~= tmp@.reverse());
    }
    let m = tmp.len();
    let mut k: usize = 0;
    while k < m
        invariant
            m == tmp@.len(),
            k <= m,
            dec_digits(v as int) == tmp@.reverse(),
            out@ == base + tmp@.reverse().take(k as int),
        decreases m - k,
    {
        let b = tmp[m - 1 - k];
        out.push(b);
        proof {
            assert(tmp@.reverse()[k as int] == tmp@[m - 1 - k]);
            assert(tmp@.reverse().take(k + 1) =~= tmp@.reverse().take(k as int).push(
                tmp@.reverse()[k as int],
            ));
            assert(out@ =~= base + tmp@.reverse().take(k + 1));
        }
        k += 1;
    }
    proof {
        assert(tmp@.reverse().take(m as int) =~= tmp@.reverse());
        assert(ser_u64(v as int) == dec_digits(v as int));
    }
}

/// Appends a list of numbers: decimal, comma-separated, closed by a
/// semicolon.
fn push_nums(out: &mut Vec<u8>, vals: &Vec<u64>)
    requires
        vals@.len() >= 1,
    ensures
        final(out)@ == old(out)@ + ser_nums(nums_view(vals@)),
{
    let ghost base = out@;
    let ghost vs = nums_view(vals@);
    let n = vals.len();
    proof {
        assert(vs.skip(0) =~= vs);
    }
    let mut k: usize = 0;
    while k < n
        invariant
            n == vals@.len(),
            vs == nums_view(vals@),
            vs.len() == n,
            k <= n,
            out@ + ser_nums(vs.skip(k as int)) == base + ser_nums(vs),
        decreases n - k,
    {
        let ghost pre = out@;
        push_u64(out, vals[k]);
        let sep = if k == n - 1 {
            END
        } else {
            SEP
        };
        out.push(sep);
        proof {
            let rem = vs.skip(k as int);
            assert(rem[0] == vs[k as int]);
            assert(vs[k as int] == vals@[k as int] as int);
            assert(rem.drop_first() =~= vs.skip(k + 1));
            assert(rem.len() == 1 <==> k == n - 1);
            assert(ser_nums(rem) == ser_u64(rem[0]) + seq![sep] + ser_nums(vs.skip(k + 1)));
            assert(out@ =~= pre + ser_u64(rem[0]) + seq![sep]);
            assert(out@ + ser_nums(vs.skip(k + 1)) =~= pre + ser_nums(rem));
        }
        k += 1;
    }
    proof {
        assert(vs.skip(n as int) =~= Seq::<int>::empty());
        assert(ser_nums(Seq::<int>::empty()) == Seq::<u8>::empty());
        assert(out@ =~= out@ + Seq::<u8>::empty());
        assert(base + ser_nums(vs) =~= (base + ser_nums(vs)) + Seq::<u8>::empty());
    }
}

/// Appends one node record.
fn push_node(out: &mut Vec<u8>, nd: &TreeNode)
    requires
        nd.shape.inv(),
    ensures
        final(out)@ == old(out)@ + ser_node(*nd),
{
    let mut vals: Vec<u64> = Vec::new();
    vals.push(nd.parent as u64);
    let jc: u64 = match nd.joint {
        Joint::Ground => 0,
        Joint::Fixed => 1,
    };
    vals.push(jc);
    let mut g: usize = 0;
    while g < 9
        invariant
            nd.shape.inv(),
            g <= 9,
            vals@.len() == 2 + g as int,
            vals@[0] as int == nd.parent as int,
            vals@[1] as int == joint_code(nd.joint),
            forall|j: int| 0 <= j < g as int ==> #[trigger] vals@[2 + j] as int == nd.shape.raw_at(j),
        decreases 9 - g,
    {
        let raw = nd.shape.get_param(g);
        vals.push(raw as u64);
        g += 1;
    }
    proof {
        assert forall|k: int| 0 <= k < 11 implies nums_view(vals@)[k] == node_nums(*nd)[k] by {
            if k >= 2 {
                assert(vals@[2 + (k - 2)] as int == nd.shape.raw_at(k - 2));
            }
        }
        assert(nums_view(vals@) =~= node_nums(*nd));
    }
    push_nums(out, &vals);
}

/// Appends one tree: its node count, a semicolon, then its node records.
fn push_tree(out: &mut Vec<u8>, t: &BodyTree)
    requires
        t.wf(),
    ensures
        final(out)@ == old(out)@ + ser_tree(t@),
{
    let ghost base = out@;
    let n = t.node_count();
    push_u64(out, n as u64);
    out.push(END);
    proof {
        assert(out@ =~= base + ser_u64(t@.len() as int) + seq![END]);
    }
    let mut j: usize = 0;
    while j < n
        invariant
            t.wf(),
            n as int == t@.len(),
            j <= n,
            out@ + ser_nodes(t@, j as int) == base + ser_tree(t@),
        decreases n - j,
    {
        let ghost pre = out@;
        let nd = t.node_at(j);
        push_node(out, &nd);
        proof {
            assert(ser_nodes(t@, j as int) == ser_node(t@[j as int]) + ser_nodes(t@, j + 1));
            assert(out@ + ser_nodes(t@, j + 1) =~= pre + ser_nodes(t@, j as int));
        }
        j += 1;
    }
    proof {
        assert(ser_nodes(t@, n as int) =~= Seq::<u8>::empty());
        assert(out@ =~= out@ + Seq::<u8>::empty());
        assert(base + ser_tree(t@) =~= (base + ser_tree(t@)) + Seq::<u8>::empty());
    }
}

/// Serializes a population of well-formed trees into its canonical
/// document.
pub fn serialise(pop: &Population) -> (out: Vec<u8>)
    requires
        forall|i: int| 0 <= i < pop@.len() ==> (#[trigger] pop@[i]).wf(),
    ensures
        out@ == ser_pop(pop_view(pop@)),
{
    let ghost pv = pop_view(pop@);
    let mut out: Vec<u8> = Vec::new();
    let n = pop.len();
    push_u64(&mut out, n as u64);
    out.push(END);
    proof {
        assert(pv.len() == pop@.len());
        assert(out@ =~= Seq::<u8>::empty() + ser_u64(pv.len() as int) + seq![END]);
    }
    let mut k: usize = 0;
    while k < n
        invariant
            n as int == pv.len(),
            pv == pop_view(pop@),
            forall|i: int| 0 <= i < pop@.len() ==> (#[trigger] pop@[i]).wf(),
            k <= n,
            out@ + ser_trees(pv, k as int) == ser_pop(pv),
        decreases n - k,
    {
        let ghost pre = out@;
        proof {
            assert(pv[k as int] == pop@[k as int]@);
        }
        push_tree(&mut out, &pop[k]);
        proof {
            assert(ser_trees(pv, k as int) == ser_tree(pv[k as int]) + ser_trees(pv, k + 1));
            assert(out@ + ser_trees(pv, k + 1) =~= pre + ser_trees(pv, k as int));
        }
        k += 1;
    }
    proof {
        assert(ser_trees(pv, n as int) =~= Seq::<u8>::empty());
        assert(out@ =~= out@ + Seq::<u8>::empty());
        assert(ser_pop(pv) =~= ser_pop(pv) + Seq::<u8>::empty());
    }
    out
}

/// The one deserialization error: the document is not a canonical
/// population serialization.
#[derive(Clone, Copy, Debug, PartialEq, Eq, Structural)]
pub enum DecodeError {
    Malformed,
}

fn byte_is_digit(b: u8) -> (r: bool)
    ensures
        r == is_digit(b),
{
    48 <= b && b <= 57
}

proof fn lemma_num_len_nonneg(s: Seq<u8>, i: int)
    ensures
        num_len(s, i) >= 0,
    decreases s.len() - i,
{
    if 0 <= i && i < s.len() && is_digit(s[i]) {
        lemma_num_len_nonneg(s, i + 1);
    }
}

proof fn lemma_num_len_at_least(s: Seq<u8>, i: int, l: int)
    requires
        0 <= i,
        0 <= l,
        i + l <= s.len(),
        forall|k: int| 0 <= k < l ==> is_digit(#[trigger] s[i + k]),
    ensures
        num_len(s, i) >= l,
    decreases l,
{
    if l > 0 {
        assert(is_digit(s[i + 0]));
        assert forall|k: int| 0 <= k < l - 1 implies is_digit(#[trigger] s[i + 1 + k]) by {
            assert(is_digit(s[i + (k + 1)]));
        }
        lemma_num_len_at_least(s, i + 1, l - 1);
    } else {
        lemma_num_len_nonneg(s, i);
    }
}

proof fn lemma_num_len_digits(s: Seq<u8>, i: int)
    requires
        0 <= i <= s.len(),
    ensures
        num_len(s, i) >= 0,
        i + num_len(s, i) <= s.len(),
        forall|k: int| 0 <= k < num_len(s, i) ==> is_digit(#[trigger] s[i + k]),
    decreases s.len() - i,
{
    if i < s.len() && is_digit(s[i]) {
        lemma_num_len_digits(s, i + 1);
        assert forall|k: int| 0 <= k < num_len(s, i) implies is_digit(#[trigger] s[i + k]) by {
            if k > 0 {
                assert(is_digit(s[i + 1 + (k - 1)]));
            }
        }
    }
}

/// Parses one number of the document, mirroring `parse_u64`.
fn parse_u64_at(s: &[u8], i: usize) -> (r: Option<(u64, usize)>)
    requires
        i <= s@.len(),
    ensures
        match r {
            Some(p) => parse_u64(s@, i as int) == Some((p.0 as int, p.1 as int)) && i < p.1
                && p.1 <= s@.len(),
            None => parse_u64(s@, i as int) is None,
        },
{
    let n = s.len();
    if i >= n || !byte_is_digit(s[i]) {
        return None;
    }
    if s[i] == 48 {
        if i + 1 < n && byte_is_digit(s[i + 1]) {
            proof {
                assert(is_digit(s@[i + 0]));
                assert(is_digit(s@[i + 1]));
                lemma_num_len_at_least(s@, i as int, 2);
            }
            return None;
        }
        proof {
            assert(is_digit(s@[i + 0]));
            lemma_num_len_exact(s@, i as int, 1);
            assert(num_val(s@, i as int, 1) == num_val(s@, i as int, 0) * 10 + (s@[i as int]
                - 48));
        }
        return Some((0, i + 1));
    }
    let mut j = i;
    let mut acc: u64 = 0;
    while j < n && 48 <= s[j] && s[j] <= 57
        invariant
            i <= j <= n,
            n == s@.len(),
            i < n,
            s@[i as int] != 48,
            is_digit(s@[i as int]),
            forall|k: int| 0 <= k < j - i ==> is_digit(#[trigger] s@[i + k]),
            acc as int == num_val(s@, i as int, j - i),
        decreases n - j,
    {
        let d = s[j] - 48;
        proof {
            assert(is_digit(s@[i + (j - i)]));
            assert(num_val(s@, i as int, j - i + 1) == num_val(s@, i as int, j - i) * 10 + (s@[
                i + (j - i)
            ] - 48));
        }
        let limit: u64 = 1_844_674_407_370_955_161;
        if acc > limit || (acc == limit && d > 5) {
            proof {
                assert(acc as int * 10 + d as int >= u64_bound());
                lemma_num_len_at_least(s@, i as int, j - i + 1);
                lemma_num_len_digits(s@, i as int);
                let l = num_len(s@, i as int);
                lemma_num_val_mono(s@, i as int, j - i + 1, l);
                assert(num_val(s@, i as int, l) >= u64_bound());
            }
            return None;
        }
        acc = acc * 10 + d as u64;
        j += 1;
    }
    proof {
        lemma_num_len_exact(s@, i as int, j - i);
        assert(j - i >= 1);
    }
    Some((acc, j))
}

/// How a partially consumed number list composes with what is already
/// parsed.
spec fn nums_compose(
    s: Seq<u8>,
    i0: int,
    cnt: nat,
    acc: Seq<int>,
    cur: int,
    rem: nat,
) -> bool {
    parse_nums(s, i0, cnt) == (match parse_nums(s, cur, rem) {
        None => None::<(Seq<int>, int)>,
        Some((vs, j)) => Some((acc + vs, j)),
    })
}

/// Parses a comma-separated, semicolon-closed list of `cnt` numbers,
/// mirroring `parse_nums`.
fn parse_nums_at(s: &[u8], i: usize, cnt: usize) -> (r: Option<(Vec<u64>, usize)>)
    requires
        i <= s@.len(),
    ensures
        match r {
            Some(p) => parse_nums(s@, i as int, cnt as nat) == Some(
                (nums_view(p.0@), p.1 as int),
            ) && p.1 <= s@.len() && p.0@.len() == cnt,
            None => parse_nums(s@, i as int, cnt as nat) is None,
        },
{
    let mut acc: Vec<u64> = Vec::new();
    let mut cur = i;
    let mut k: usize = 0;
    proof {
        assert(nums_view(acc@) =~= Seq::<int>::empty());
        assert(nums_compose(
            s@,
            i as int,
            cnt as nat,
            nums_view(acc@),
            cur as int,
            (cnt - k) as nat,
        ));
    }
    while k < cnt
        invariant
            k <= cnt,
            i <= cur <= s@.len(),
            acc@.len() == k,
            nums_compose(s@, i as int, cnt as nat, nums_view(acc@), cur as int, (cnt - k) as nat),
        decreases cnt - k,
    {
        let r = parse_u64_at(s, cur);
        match r {
            None => {
                return None;
            },
            Some((v, i2)) => {
                let sep = if k == cnt - 1 {
                    END
                } else {
                    SEP
                };
                if i2 < s.len() && s[i2] == sep {
                    let ghost acc0 = nums_view(acc@);
                    acc.push(v);
                    proof {
                        assert(nums_view(acc@) =~= acc0.push(v as int));
                        match parse_nums(s@, i2 + 1, (cnt - k - 1) as nat) {
                            None => {},
                            Some((vs, j)) => {
                                assert(acc0 + (seq![v as int] + vs) =~= acc0.push(v as int)
                                    + vs);
                            },
                        }
                    }
                    cur = i2 + 1;
                } else {
                    return None;
                }
            },
        }
        k += 1;
    }
    proof {
        assert(nums_view(acc@) + Seq::<int>::empty() =~= nums_view(acc@));
    }
    Some((acc, cur))
}

/// Parses one node record and validates it for position `idx`, mirroring
/// `parse_node` and the position check of `parse_nodes`.
#[verifier::loop_isolation(false)]
fn parse_node_at(s: &[u8], i: usize, idx: usize) -> (r: Option<(TreeNode, usize)>)
    requires
        i <= s@.len(),
    ensures
        match r {
            Some(p) => parse_node(s@, i as int) == Some((p.0, p.1 as int)) && p.1 <= s@.len()
                && node_ok_at(p.0, idx as int) && p.0.shape.inv(),
            None => match parse_node(s@, i as int) {
                Some(q) => !node_ok_at(q.0, idx as int),
                None => true,
            },
        },
{
    let r = parse_nums_at(s, i, 11);
    match r {
        None => None,
        Some((vals, i2)) => {
            let ghost vs = nums_view(vals@);
            proof {
                assert(vs[0] == vals@[0] as int);
                assert(vs[1] == vals@[1] as int);
            }
            let parent64 = vals[0];
            let jc = vals[1];
            if parent64 > usize::MAX as u64 || jc > 1 {
                proof {
                    assert(!node_nums_valid(vs));
                }
                return None;
            }
            let mut g: usize = 0;
            while g < 9
                invariant
                    g <= 9,
                    vals@.len() == 11,
                    vs == nums_view(vals@),
                    forall|x: int|
                        0 <= x < g as int ==> 0 <= #[trigger] vals@[2 + x] as int <= RAW_ONE,
                decreases 9 - g,
            {
                if vals[2 + g] > RAW_ONE as u64 {
                    proof {
                        assert(vs[2 + g as int] == vals@[2 + g as int] as int);
                        assert(!(0 <= vs[2 + g as int] <= RAW_ONE));
                        assert(!node_nums_valid(vs));
                    }
                    return None;
                }
                g += 1;
            }
            proof {
                assert forall|x: int| 2 <= x < 11 implies 0 <= #[trigger] vs[x] <= RAW_ONE by {
                    assert(0 <= vals@[2 + (x - 2)] as int <= RAW_ONE);
                    assert(vs[x] == vals@[x] as int);
                }
                assert(node_nums_valid(vs));
            }
            let parent = parent64 as usize;
            let joint = if jc == 0 {
                Joint::Ground
            } else {
                Joint::Fixed
            };
            let ghost want = node_from_nums(vs);
            proof {
                assert(want.parent as int == vs[0]);
                assert(want.joint == joint);
            }
            if idx == 0 {
                if !(parent == 0 && jc == 0) {
                    proof {
                        assert(!node_ok_at(want, 0));
                    }
                    return None;
                }
            } else {
                if !(parent < idx) {
                    proof {
                        assert(!node_ok_at(want, idx as int));
                    }
                    return None;
                }
            }
            proof {
                assert(0 <= vals@[2 + 0int] as int <= RAW_ONE);
                assert(0 <= vals@[2 + 1int] as int <= RAW_ONE);
                assert(0 <= vals@[2 + 2int] as int <= RAW_ONE);
                assert(0 <= vals@[2 + 3int] as int <= RAW_ONE);
                assert(0 <= vals@[2 + 4int] as int <= RAW_ONE);
                assert(0 <= vals@[2 + 5int] as int <= RAW_ONE);
                assert(0 <= vals@[2 + 6int] as int <= RAW_ONE);
                assert(0 <= vals@[2 + 7int] as int <= RAW_ONE);
                assert(0 <= vals@[2 + 8int] as int <= RAW_ONE);
            }
            let shape = crate::body::new_cuboid(
                (vals[2] as i64, vals[3] as i64, vals[4] as i64),
                (vals[5] as i64, vals[6] as i64, vals[7] as i64),
                (vals[8] as i64, vals[9] as i64, vals[10] as i64),
            );
            let nd = TreeNode { shape, parent, joint };
            proof {
                assert(vs.skip(2)[0] == vals@[2] as int);
                assert(vs.skip(2)[1] == vals@[3] as int);
                assert(vs.skip(2)[2] == vals@[4] as int);
                assert(vs.skip(2)[3] == vals@[5] as int);
                assert(vs.skip(2)[4] == vals@[6] as int);
                assert(vs.skip(2)[5] == vals@[7] as int);
                assert(vs.skip(2)[6] == vals@[8] as int);
                assert(vs.skip(2)[7] == vals@[9] as int);
                assert(vs.skip(2)[8] == vals@[10] as int);
                lemma_shape_eq_from_raws(shape, want.shape);
                assert(nd == want);
            }
            Some((nd, i2))
        },
    }
}

/// How a partially consumed run of node records composes with what is
/// already parsed.
spec fn nodes_compose(
    s: Seq<u8>,
    i0: int,
    cnt: nat,
    acc: Seq<TreeNode>,
    cur: int,
    rem: nat,
) -> bool {
    parse_nodes(s, i0, cnt, 0) == (match parse_nodes(s, cur, rem, acc.len() as int) {
        None => None::<(Seq<TreeNode>, int)>,
        Some((nds, j)) => Some((acc + nds, j)),
    })
}

/// Parses one tree, mirroring `parse_tree`.
#[verifier::loop_isolation(false)]
fn parse_tree_at(s: &[u8], i: usize) -> (r: Option<(BodyTree, usize)>)
    requires
        i <= s@.len(),
    ensures
        match r {
            Some(p) => parse_tree(s@, i as int) == Some((p.0@, p.1 as int)) && p.1 <= s@.len()
                && p.0.wf(),
            None => parse_tree(s@, i as int) is None,
        },
{
    let r = parse_u64_at(s, i);
    match r {
        None => None,
        Some((cnt64, i2)) => {
            if cnt64 < 1 || cnt64 > usize::MAX as u64 {
                return None;
            }
            if !(i2 < s.len() && s[i2] == END) {
                return None;
            }
            let cnt = cnt64 as usize;
            let mut nodes: Vec<TreeNode> = Vec::new();
            let mut cur = i2 + 1;
            let mut k: usize = 0;
            proof {
                assert(nodes_compose(
                    s@,
                    i2 + 1,
                    cnt as nat,
                    nodes@,
                    cur as int,
                    (cnt - k) as nat,
                ));
            }
            while k < cnt
                invariant
                    k <= cnt,
                    cur <= s@.len(),
                    nodes@.len() == k,
                    nodes_compose(s@, i2 + 1, cnt as nat, nodes@, cur as int, (cnt - k) as nat),
                    forall|x: int| 0 <= x < k as int ==> node_ok_at(#[trigger] nodes@[x], x)
                        && nodes@[x].shape.inv(),
                decreases cnt - k,
            {
                let rn = parse_node_at(s, cur, k);
                match rn {
                    None => {
                        return None;
                    },
                    Some((nd, j2)) => {
                        let ghost nodes0 = nodes@;
                        nodes.push(nd);
                        proof {
                            match parse_nodes(s@, j2 as int, (cnt - k - 1) as nat, k + 1) {
                                None => {},
                                Some((nds, jj)) => {
                                    assert(nodes0 + (seq![nd] + nds) =~= nodes0.push(nd) + nds);
                                },
                            }
                        }
                        cur = j2;
                    },
                }
                k += 1;
            }
            proof {
                assert(nodes@ + Seq::<TreeNode>::empty() =~= nodes@);
                assert(node_ok_at(nodes@[0], 0));
                assert forall|x: int| 1 <= x < nodes@.len() implies (#[trigger] nodes@[x]).parent
                    < x by {
                    assert(node_ok_at(nodes@[x], x));
                }
                assert(tree_wf(nodes@));
            }
            let t = BodyTree::from_nodes(nodes);
            Some((t, cur))
        },
    }
}

/// How a partially consumed run of trees composes with what is already
/// parsed.
spec fn trees_compose(
    s: Seq<u8>,
    i0: int,
    cnt: nat,
    acc: Seq<Seq<TreeNode>>,
    cur: int,
    rem: nat,
) -> bool {
    parse_trees(s, i0, cnt) == (match parse_trees(s, cur, rem) {
        None => None::<(Seq<Seq<TreeNode>>, int)>,
        Some((ts, j)) => Some((acc + ts, j)),
    })
}

/// Parses a whole document as one population. Returns the population on a
/// canonical document and `Malformed` on every other input; on success
/// every tree of the result is well-formed.
#[verifier::loop_isolation(false)]
pub fn deserialise(bytes: &[u8]) -> (r: Result<Population, DecodeError>)
    ensures
        match r {
            Ok(pop) => parse_pop(bytes@) == Some(pop_view(pop@)) && forall|x: int|
                0 <= x < pop@.len() ==> (#[trigger] pop@[x]).wf(),
            Err(_) => parse_pop(bytes@) is None,
        },
{
    let r = parse_u64_at(bytes, 0);
    match r {
        None => Err(DecodeError::Malformed),
        Some((cnt64, i2)) => {
            if cnt64 > usize::MAX as u64 {
                return Err(DecodeError::Malformed);
            }
            if !(i2 < bytes.len() && bytes[i2] == END) {
                return Err(DecodeError::Malformed);
            }
            let cnt = cnt64 as usize;
            let mut pop: Population = Vec::new();
            let mut cur = i2 + 1;
            let mut k: usize = 0;
            proof {
                assert(pop_view(pop@) =~= Seq::<Seq<TreeNode>>::empty());
                assert(trees_compose(
                    bytes@,
                    i2 + 1,
                    cnt as nat,
                    pop_view(pop@),
                    cur as int,
                    (cnt - k) as nat,
                ));
            }
            while k < cnt
                invariant
                    k <= cnt,
                    cur <= bytes@.len(),
                    pop@.len() == k,
                    trees_compose(
                        bytes@,
                        i2 + 1,
                        cnt as nat,
                        pop_view(pop@),
                        cur as int,
                        (cnt - k) as nat,
                    ),
                    forall|x: int| 0 <= x < k as int ==> (#[trigger] pop@[x]).wf(),
                decreases cnt - k,
            {
                let rt = parse_tree_at(bytes, cur);
                match rt {
                    None => {
                        return Err(DecodeError::Malformed);
                    },
                    Some((t, j2)) => {
                        let ghost pv0 = pop_view(pop@);
                        let ghost tv = t@;
                        pop.push(t);
                        proof {
                            assert(pop_view(pop@) =~= pv0.push(tv));
                            match parse_trees(bytes@, j2 as int, (cnt - k - 1) as nat) {
                                None => {},
                                Some((ts, jj)) => {
                                    assert(pv0 + (seq![tv] + ts) =~= pv0.push(tv) + ts);
                                },
                            }
                        }
                        cur = j2;
                    },
                }
                k += 1;
            }
            if cur != bytes.len() {
                return Err(DecodeError::Malformed);
            }
            proof {
                assert(pop_view(pop@) + Seq::<Seq<TreeNode>>::empty() =~= pop_view(pop@));
            }
            Ok(pop)
        },
    }
}

} // verus!
