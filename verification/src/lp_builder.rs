//! The linear program of the whole network: flows of several commodities over
//! shared edges at the least cost.
use crate::multicast::{
    build_j1_matrix, build_j2_matrix, column_fault, columns_exist, compute_j1_minus_j2,
    extract_mcast_eligible_columns, first_beyond, gap_of_nothing, group_column, hstack_matrices,
    j1_cols, j2_cols, occurrences, pick_columns, picked, place_gap, place_sum, shifted_zero,
    side_gathered,
};
use crate::consolidation::links::{kinds_of, used_ids};
use crate::constants::{CITY_PREFIX_LEN, OP_PUBLIC, PUBLIC_SWITCH_SUFFIX};
use crate::error::{Fault, ShapleyError};
use crate::lists::{
    below, count_grows, count_where, find_id, gather, gather_holds, gather_member, gather_same,
    ordered, sort_ids, sorted_ids, sorted_of,
};
use crate::quantity::Real;
use crate::text::{join, place, position, same, sorted_list, sorted_unique, views, views_push};
use crate::types::{ConsolidatedDemand, ConsolidatedLink, EdgeRow, FlowRow};
use crate::sparse::{
    columns_fit, columns_within, matrix_from_triplets, placed, placed_cols, shifted, ColumnWriter,
    CscMatrix,
};
use vstd::prelude::*;
use vstd::string::*;

verus! {

/// A coefficient that is a fraction of two whole numbers.
#[derive(Clone, Copy, Debug, PartialEq, Eq, Structural)]
pub struct Share {
    pub num: i32,
    pub den: u32,
}

/// The columns with whole numbers as fractions.
pub open spec fn as_shares(col: Seq<(usize, i32)>) -> Seq<(usize, Share)> {
    Seq::new(col.len(), |k: int| (col[k].0, Share { num: col[k].1, den: 1 }))
}

/// Writes the whole numbers of a matrix as fractions.
fn to_shares(matrix: CscMatrix<i32>) -> (r: CscMatrix<Share>)
    requires
        matrix.wf(),
    ensures
        r.wf(),
        r.m == matrix.m,
        r.n == matrix.n,
        forall|j: int| 0 <= j < r.n ==> #[trigger] r.cols()[j] == as_shares(matrix.cols()[j]),
        matrix.rows_fit() ==> r.rows_fit(),
{
    let mut values: Vec<Share> = Vec::new();
    for k in 0..matrix.nzval.len()
        invariant
            values@.len() == k,
            forall|i: int|
                0 <= i < k ==> #[trigger] values@[i] == (Share { num: matrix.nzval@[i], den: 1 }),
    {
        values.push(Share { num: matrix.nzval[k], den: 1 });
    }
    let ghost before = matrix;
    let r = CscMatrix::new(matrix.m, matrix.n, matrix.colptr, matrix.rowval, values);
    proof {
        assert forall|j: int| 0 <= j < r.n implies #[trigger] r.cols()[j] == as_shares(
            before.cols()[j],
        ) by {
            assert(before.colptr@[j] <= before.colptr@[j + 1]);
            assert(before.colptr@[j + 1] <= before.colptr@[before.n as int]);
            assert(r.cols()[j] =~= as_shares(before.cols()[j]));
        }
    }
    r
}

/// The columns of one block moved `shift` rows down.
pub open spec fn lowered<T>(cols: Seq<Seq<(usize, T)>>, shift: int) -> Seq<Seq<(usize, T)>> {
    Seq::new(cols.len(), |j: int| shifted(cols[j], shift))
}

/// The columns of a matrix of `m` rows repeated `n` times along the diagonal.
pub open spec fn diagonal<T>(cols: Seq<Seq<(usize, T)>>, m: int, n: int) -> Seq<
    Seq<(usize, T)>,
> {
    gather(n, |b: int| lowered(cols, b * m))
}

/// Repeats a matrix along the diagonal.
fn block_diagonal_csc<T: Copy>(matrix: &CscMatrix<T>, n: usize) -> (r: CscMatrix<T>)
    requires
        matrix.wf(),
        matrix.rows_fit(),
        matrix.m * n <= usize::MAX,
    ensures
        r.wf(),
        r.rows_fit(),
        r.m == matrix.m * n,
        r.n == matrix.n * n,
        r.cols() == diagonal(matrix.cols(), matrix.m as int, n as int),
{
    let ghost m = matrix.m as int;
    let ghost f = |b: int| lowered(matrix.cols(), b * m);
    let mut out: ColumnWriter<T> = ColumnWriter::start();
    proof {
        columns_within(*matrix);
        assert(0 * matrix.n == 0) by (nonlinear_arith);
    }
    for block in 0..n
        invariant
            matrix.wf(),
            columns_fit(matrix.cols(), m),
            m == matrix.m,
            m * n <= usize::MAX,
            f == (|b: int| lowered(matrix.cols(), b * m)),
            out.wf(),
            out.open_col() == Seq::<(usize, T)>::empty(),
            out.closed_cols() == gather(block as int, f),
            out.closed_cols().len() == block * matrix.n,
            columns_fit(out.closed_cols(), block * m),
    {
        proof {
            assert(block * m + m <= m * n) by (nonlinear_arith)
                requires
                    block + 1 <= n,
                    m >= 0,
            ;
            assert(0 <= block * m) by (nonlinear_arith)
                requires
                    block >= 0,
                    m >= 0,
            ;
            assert((block + 1) * m == block * m + m) by (nonlinear_arith);
            assert((block + 1) * matrix.n == block * matrix.n + matrix.n) by (nonlinear_arith);
        }
        let offset: usize = block * matrix.m;
        let ghost before = out.closed_cols();
        let ghost piece = lowered(matrix.cols(), block * m);
        assert(before =~= before + piece.take(0));
        for j in 0..matrix.n
            invariant
                matrix.wf(),
                columns_fit(matrix.cols(), m),
                offset + m <= usize::MAX,
                out.wf(),
                piece == lowered(matrix.cols(), offset as int),
                out.open_col() == Seq::<(usize, T)>::empty(),
                out.closed_cols() == before + piece.take(j as int),
        {
            assert forall|k: int| 0 <= k < matrix.col(j as int).len() implies (
            #[trigger] matrix.col(j as int)[k]).0 + offset <= usize::MAX by {
                assert(matrix.cols()[j as int][k].0 < m);
            }
            out.copy_col(matrix, j, offset);
            assert(out.open_col() =~= piece[j as int]);
            out.close();
            assert(out.closed_cols() =~= before + piece.take(j + 1));
        }
        proof {
            assert(piece.take(matrix.n as int) =~= piece);
            assert(f(block as int) == piece);
            let all = out.closed_cols();
            assert forall|j: int, k: int| 0 <= j < all.len() && 0 <= k < all[j].len() implies (
            #[trigger] all[j][k]).0 < (block + 1) * m by {
                if j < before.len() {
                    assert(before[j][k].0 < block * m);
                } else {
                    assert(all[j] == piece[j - before.len()]);
                    assert(matrix.cols()[j - before.len()][k].0 < m);
                }
            }
        }
    }
    proof {
        assert(n * m == m * n) by (nonlinear_arith);
        assert(n * matrix.n == matrix.n * n) by (nonlinear_arith);
    }
    out.finish(matrix.m * n)
}

/// How many rows several matrices have together.
pub open spec fn height<T>(matrices: Seq<&CscMatrix<T>>) -> int
    decreases matrices.len(),
{
    if matrices.len() == 0 {
        0
    } else {
        height(matrices.drop_last()) + matrices.last().m
    }
}

/// Column `j` of several matrices, one below the other.
pub open spec fn stacked<T>(matrices: Seq<&CscMatrix<T>>, j: int) -> Seq<(usize, T)>
    decreases matrices.len(),
{
    if matrices.len() == 0 {
        Seq::empty()
    } else {
        let front = matrices.drop_last();
        stacked(front, j) + shifted(matrices.last().cols()[j], height(front))
    }
}

/// More matrices have no fewer rows.
proof fn height_grows<T>(matrices: Seq<&CscMatrix<T>>, k: int)
    requires
        0 <= k <= matrices.len(),
    ensures
        0 <= height(matrices.take(k)) <= height(matrices),
    decreases matrices.len(),
{
    if k == matrices.len() {
        assert(matrices.take(k) =~= matrices);
        if k > 0 {
            height_grows(matrices.drop_last(), k - 1);
        }
    } else {
        height_grows(matrices.drop_last(), k);
        assert(matrices.drop_last().take(k) =~= matrices.take(k));
    }
}

/// Places matrices one below the other.
fn vstack_matrices<T: Copy>(matrices: &[&CscMatrix<T>]) -> (r: Result<CscMatrix<T>, ShapleyError>)
    requires
        forall|i: int| 0 <= i < matrices@.len() ==> (#[trigger] matrices@[i]).wf(),
        forall|i: int| 0 <= i < matrices@.len() ==> (#[trigger] matrices@[i]).rows_fit(),
        height(matrices@) <= usize::MAX,
    ensures
        r is Ok <==> forall|i: int|
            0 <= i < matrices@.len() ==> (#[trigger] matrices@[i]).n == matrices@[0].n,
        r matches Ok(a) ==> {
            &&& a.wf()
            &&& a.rows_fit()
            &&& a.m == height(matrices@)
            &&& a.n == if matrices@.len() == 0 {
                0
            } else {
                matrices@[0].n
            }
            &&& a.cols() == Seq::new(a.n as nat, |j: int| stacked(matrices@, j))
        },
        r matches Err(e) ==> e@ == Fault::MatrixConstructionError(
            "All matrices must have the same number of columns to vstack"@,
        ),
{
    let mut n_cols: usize = 0;
    if matrices.len() > 0 {
        n_cols = matrices[0].n;
    }
    for i in 0..matrices.len()
        invariant
            matrices@.len() > 0 ==> n_cols == matrices@[0].n,
            forall|k: int| 0 <= k < i ==> (#[trigger] matrices@[k]).n == n_cols,
    {
        if matrices[i].n != n_cols {
            assert(matrices@[i as int].n != matrices@[0].n);
            return Err(
                ShapleyError::MatrixConstructionError(
                    "All matrices must have the same number of columns to vstack".to_owned(),
                ),
            );
        }
    }
    let mut rows: usize = 0;
    for i in 0..matrices.len()
        invariant
            height(matrices@) <= usize::MAX,
            rows == height(matrices@.take(i as int)),
    {
        proof {
            height_grows(matrices@, i + 1);
            assert(matrices@.take(i + 1).drop_last() =~= matrices@.take(i as int));
        }
        rows = rows + matrices[i].m;
    }
    assert(matrices@.take(matrices@.len() as int) =~= matrices@);
    let mut out: ColumnWriter<T> = ColumnWriter::start();
    let ghost all = Seq::new(n_cols as nat, |j: int| stacked(matrices@, j));
    assert(all.take(0) =~= Seq::<Seq<(usize, T)>>::empty());
    for j in 0..n_cols
        invariant
            forall|i: int| 0 <= i < matrices@.len() ==> (#[trigger] matrices@[i]).wf(),
            forall|i: int| 0 <= i < matrices@.len() ==> (#[trigger] matrices@[i]).rows_fit(),
            forall|k: int| 0 <= k < matrices@.len() ==> (#[trigger] matrices@[k]).n == n_cols,
            height(matrices@) <= usize::MAX,
            rows == height(matrices@),
            all == Seq::new(n_cols as nat, |j: int| stacked(matrices@, j)),
            out.wf(),
            out.open_col() == Seq::<(usize, T)>::empty(),
            out.closed_cols() == all.take(j as int),
            columns_fit(out.closed_cols(), rows as int),
    {
        let ghost before = out.closed_cols();
        let mut offset: usize = 0;
        for i in 0..matrices.len()
            invariant
                forall|i: int| 0 <= i < matrices@.len() ==> (#[trigger] matrices@[i]).wf(),
                forall|i: int| 0 <= i < matrices@.len() ==> (#[trigger] matrices@[i]).rows_fit(),
                forall|k: int| 0 <= k < matrices@.len() ==> (#[trigger] matrices@[k]).n == n_cols,
                j < n_cols,
                height(matrices@) <= usize::MAX,
                out.wf(),
                out.closed_cols() == before,
                offset == height(matrices@.take(i as int)),
                out.open_col() == stacked(matrices@.take(i as int), j as int),
                forall|k: int|
                    0 <= k < out.open_col().len() ==> (#[trigger] out.open_col()[k]).0 < offset,
        {
            let matrix = matrices[i];
            proof {
                height_grows(matrices@, i + 1);
                assert(matrices@.take(i + 1).drop_last() =~= matrices@.take(i as int));
                assert(matrix.wf() && matrix.rows_fit() && matrix.n == n_cols);
                columns_within(*matrix);
            }
            let ghost head = out.open_col();
            assert forall|k: int| 0 <= k < matrix.col(j as int).len() implies (
            #[trigger] matrix.col(j as int)[k]).0 + offset <= usize::MAX by {
                assert(matrix.cols()[j as int][k].0 < matrix.m);
            }
            out.copy_col(matrix, j, offset);
            assert forall|k: int| 0 <= k < out.open_col().len() implies (
            #[trigger] out.open_col()[k]).0 < offset + matrix.m by {
                if k < head.len() {
                    assert(out.open_col()[k] == head[k]);
                } else {
                    assert(matrix.cols()[j as int][k - head.len()].0 < matrix.m);
                }
            }
            offset = offset + matrix.m;
        }
        assert(matrices@.take(matrices@.len() as int) =~= matrices@);
        let ghost last = out.open_col();
        out.close();
        assert(all.take(j + 1) =~= all.take(j as int).push(all[j as int]));
        assert forall|p: int, k: int|
            0 <= p < out.closed_cols().len() && 0 <= k < out.closed_cols()[p].len() implies (
        #[trigger] out.closed_cols()[p][k]).0 < rows by {
            if p < before.len() {
                assert(before[p][k].0 < rows);
            } else {
                assert(last[k].0 < rows);
            }
        }
    }
    assert(all.take(n_cols as int) =~= all);
    Ok(out.finish(rows))
}

/// The entries of an edge in the rows of its two ends, ordered by row: one where
/// traffic leaves, minus one where it arrives.
pub open spec fn incidence(edge: EdgeRow, nodes: Seq<Seq<char>>) -> Seq<(usize, i32)> {
    let a = place(nodes, edge.device1) as usize;
    let b = place(nodes, edge.device2) as usize;
    if b < a {
        seq![(b, -1i32), (a, 1i32)]
    } else {
        seq![(a, 1i32), (b, -1i32)]
    }
}

/// The columns of the edges, for one commodity.
pub open spec fn single_cols(edges: Seq<EdgeRow>, nodes: Seq<Seq<char>>) -> Seq<
    Seq<(usize, i32)>,
> {
    Seq::new(edges.len(), |j: int| incidence(edges[j], nodes))
}

/// The end of the edge that is not among the nodes, the first end first.
pub open spec fn unknown_end(edge: EdgeRow, nodes: Seq<Seq<char>>) -> Option<Seq<char>> {
    if !nodes.contains(edge.device1) {
        Some(edge.device1)
    } else if !nodes.contains(edge.device2) {
        Some(edge.device2)
    } else {
        None
    }
}

/// The first edge with an end that is not among the nodes.
pub open spec fn first_unknown(edges: Seq<EdgeRow>, nodes: Seq<Seq<char>>, i: int) -> bool {
    &&& 0 <= i < edges.len()
    &&& unknown_end(edges[i], nodes) is Some
    &&& forall|k: int| 0 <= k < i ==> unknown_end(#[trigger] edges[k], nodes) is None
}

/// What is said of a node that is not there.
pub open spec fn node_fault(name: Seq<char>) -> Fault {
    Fault::MatrixConstructionError("Node "@ + name + " not found in index"@)
}

/// Reports a node that is not there.
fn unknown_node(name: &str) -> (r: ShapleyError)
    ensures
        r@ == node_fault(name@),
{
    let head = join("Node ", name);
    ShapleyError::MatrixConstructionError(join(head.as_str(), " not found in index"))
}

/// Builds the matrix of flow conservation for one commodity: a row for each node,
/// a column for each edge.
pub fn build_single_commodity_matrix(links: &[ConsolidatedLink], nodes: &[String]) -> (r: Result<
    CscMatrix<i32>,
    ShapleyError,
>)
    ensures
        r is Ok <==> forall|i: int|
            0 <= i < links@.len() ==> unknown_end(#[trigger] views(links@)[i], views(nodes@)) is None,
        r matches Ok(a) ==> {
            &&& a.wf()
            &&& a.rows_fit()
            &&& a.m == nodes@.len()
            &&& a.n == links@.len()
            &&& a.cols() == single_cols(views(links@), views(nodes@))
        },
        r matches Err(e) ==> exists|i: int| #[trigger]
            first_unknown(views(links@), views(nodes@), i) && e@ == node_fault(
                unknown_end(views(links@)[i], views(nodes@))->0,
            ),
{
    let ghost edges = views(links@);
    let ghost names = views(nodes@);
    let ghost all = single_cols(edges, names);
    let mut out: ColumnWriter<i32> = ColumnWriter::start();
    assert(all.take(0) =~= Seq::<Seq<(usize, i32)>>::empty());
    for j in 0..links.len()
        invariant
            edges == views(links@),
            names == views(nodes@),
            all == single_cols(edges, names),
            out.wf(),
            out.open_col() == Seq::<(usize, i32)>::empty(),
            out.closed_cols() == all.take(j as int),
            columns_fit(out.closed_cols(), nodes@.len() as int),
            forall|k: int| 0 <= k < j ==> unknown_end(#[trigger] edges[k], names) is None,
    {
        let link = &links[j];
        assert(link@ == edges[j as int]);
        let a: usize = match position(nodes, link.device1.as_str()) {
            Some(at) => at,
            None => {
                assert(first_unknown(edges, names, j as int));
                return Err(unknown_node(link.device1.as_str()));
            },
        };
        let b: usize = match position(nodes, link.device2.as_str()) {
            Some(at) => at,
            None => {
                assert(first_unknown(edges, names, j as int));
                return Err(unknown_node(link.device2.as_str()));
            },
        };
        let ghost before = out.closed_cols();
        if b < a {
            out.entry(b, -1);
            out.entry(a, 1);
        } else {
            out.entry(a, 1);
            out.entry(b, -1);
        }
        assert(out.open_col() =~= all[j as int]);
        let ghost last = out.open_col();
        out.close();
        assert(all.take(j + 1) =~= all.take(j as int).push(all[j as int]));
        assert forall|p: int, k: int|
            0 <= p < out.closed_cols().len() && 0 <= k < out.closed_cols()[p].len() implies (
        #[trigger] out.closed_cols()[p][k]).0 < nodes@.len() by {
            if p < before.len() {
                assert(before[p][k].0 < nodes@.len());
            } else {
                assert(last[k].0 < nodes@.len());
            }
        }
    }
    assert(all.take(links@.len() as int) =~= all);
    Ok(out.finish(nodes.len()))
}

/// The edge belongs to the public network.
pub open spec fn is_public(edge: EdgeRow) -> bool {
    edge.operator1 == OP_PUBLIC@
}

/// What follows the code of the city in a device's name.
pub open spec fn device_tail(device: Seq<char>) -> Seq<char> {
    if device.len() > CITY_PREFIX_LEN {
        device.skip(CITY_PREFIX_LEN as int)
    } else {
        Seq::empty()
    }
}

/// The edge leads to a device, not to a city or its public switch.
pub open spec fn leads_to_device(edge: EdgeRow) -> bool {
    device_tail(edge.device2) != PUBLIC_SWITCH_SUFFIX@ && device_tail(edge.device2).len() > 0
}

/// A private edge on which multicast traffic is carried once for all receivers.
pub open spec fn is_trunk(edge: EdgeRow) -> bool {
    leads_to_device(edge) && !is_public(edge)
}

/// A private edge on which multicast traffic counts as any other.
pub open spec fn is_plain(edge: EdgeRow) -> bool {
    !leads_to_device(edge) && !is_public(edge)
}

/// Whether a name is more than a city or its public switch.
fn names_device(device: &str) -> (r: bool)
    ensures
        r == (device_tail(device@) != PUBLIC_SWITCH_SUFFIX@ && device_tail(device@).len() > 0),
{
    let n: usize = device.unicode_len();
    if n <= CITY_PREFIX_LEN {
        return false;
    }
    let tail = device.substring_char(CITY_PREFIX_LEN, n);
    assert(tail@ =~= device_tail(device@));
    !same(tail, PUBLIC_SWITCH_SUFFIX)
}

/// The places of the edges on which multicast is carried once.
pub open spec fn trunks(edges: Seq<EdgeRow>) -> Seq<usize> {
    gather(
        edges.len() as int,
        |i: int|
            if is_trunk(edges[i]) {
                seq![i as usize]
            } else {
                Seq::empty()
            },
    )
}

/// The places of the private edges on which multicast counts as any other.
pub open spec fn plains(edges: Seq<EdgeRow>) -> Seq<usize> {
    gather(
        edges.len() as int,
        |i: int|
            if is_plain(edges[i]) {
                seq![i as usize]
            } else {
                Seq::empty()
            },
    )
}

/// Splits the private edges by how they carry multicast.
fn split_edges(links: &[ConsolidatedLink]) -> (r: (Vec<usize>, Vec<usize>))
    ensures
        r.0@ == trunks(views(links@)),
        r.1@ == plains(views(links@)),
{
    let ghost edges = views(links@);
    let ghost f = |i: int|
        if is_trunk(edges[i]) {
            seq![i as usize]
        } else {
            Seq::empty()
        };
    let ghost g = |i: int|
        if is_plain(edges[i]) {
            seq![i as usize]
        } else {
            Seq::empty()
        };
    let mut trunk: Vec<usize> = Vec::new();
    let mut plain: Vec<usize> = Vec::new();
    assert(trunk@ =~= gather(0, f));
    assert(plain@ =~= gather(0, g));
    for i in 0..links.len()
        invariant
            edges == views(links@),
            f == (|i: int|
                if is_trunk(edges[i]) {
                    seq![i as usize]
                } else {
                    Seq::empty()
                }),
            g == (|i: int|
                if is_plain(edges[i]) {
                    seq![i as usize]
                } else {
                    Seq::empty()
                }),
            trunk@ == gather(i as int, f),
            plain@ == gather(i as int, g),
    {
        let link = &links[i];
        assert(link@ == edges[i as int]);
        let ghost t = trunk@;
        let ghost p = plain@;
        if !same(link.operator1.as_str(), OP_PUBLIC) {
            if names_device(link.device2.as_str()) {
                trunk.push(i);
            } else {
                plain.push(i);
            }
        }
        assert(trunk@ =~= t + f(i as int));
        assert(plain@ =~= p + g(i as int));
    }
    (trunk, plain)
}

/// How many edges are private.
pub open spec fn private_count(edges: Seq<EdgeRow>) -> nat {
    count_where(edges.len() as int, |i: int| !is_public(edges[i]))
}

/// Counts the private edges.
fn count_private(links: &[ConsolidatedLink]) -> (r: usize)
    ensures
        r == private_count(views(links@)),
        r <= links@.len(),
{
    let ghost edges = views(links@);
    let ghost p = |i: int| !is_public(edges[i]);
    let mut n: usize = 0;
    for i in 0..links.len()
        invariant
            edges == views(links@),
            p == (|i: int| !is_public(edges[i])),
            n == count_where(i as int, p),
            n <= i,
    {
        assert(links@[i as int]@ == edges[i as int]);
        if !same(links[i].operator1.as_str(), OP_PUBLIC) {
            n = n + 1;
        }
    }
    n
}

/// The names of all places that edges and flows mention.
pub open spec fn mentioned(edges: Seq<EdgeRow>, flows: Seq<FlowRow>) -> Seq<Seq<char>> {
    gather(edges.len() as int, |i: int| seq![edges[i].device1, edges[i].device2]) + gather(
        flows.len() as int,
        |i: int| seq![flows[i].start, flows[i].end],
    )
}

/// The nodes of the network, in order.
pub open spec fn node_names(edges: Seq<EdgeRow>, flows: Seq<FlowRow>) -> Seq<Seq<char>> {
    sorted_list(mentioned(edges, flows))
}

/// Lists the nodes of the network.
fn find_nodes(links: &[ConsolidatedLink], demands: &[ConsolidatedDemand]) -> (r: Vec<String>)
    ensures
        views(r@) == node_names(views(links@), views(demands@)),
        forall|i: int|
            0 <= i < links@.len() ==> unknown_end(#[trigger] views(links@)[i], views(r@)) is None,
        forall|i: int|
            0 <= i < demands@.len() ==> views(r@).contains((#[trigger] views(demands@)[i]).start)
                && views(r@).contains(views(demands@)[i].end),
{
    let ghost edges = views(links@);
    let ghost flows = views(demands@);
    let ghost f = |i: int| seq![edges[i].device1, edges[i].device2];
    let ghost g = |i: int| seq![flows[i].start, flows[i].end];
    let mut names: Vec<String> = Vec::new();
    assert(views(names@) =~= gather(0, f));
    for i in 0..links.len()
        invariant
            edges == views(links@),
            f == (|i: int| seq![edges[i].device1, edges[i].device2]),
            views(names@) == gather(i as int, f),
    {
        let ghost before = views(names@);
        names.push(links[i].device1.clone());
        names.push(links[i].device2.clone());
        assert(views(names@) =~= before + f(i as int));
    }
    let ghost base = views(names@);
    assert(views(names@) =~= base + gather(0, g));
    for i in 0..demands.len()
        invariant
            flows == views(demands@),
            g == (|i: int| seq![flows[i].start, flows[i].end]),
            views(names@) == base + gather(i as int, g),
    {
        let ghost before = views(names@);
        names.push(demands[i].start.clone());
        names.push(demands[i].end.clone());
        assert(views(names@) =~= before + g(i as int));
        assert(views(names@) =~= base + gather(i + 1, g));
    }
    let r = sorted_unique(&names);
    proof {
        let all = views(names@);
        assert forall|i: int| 0 <= i < links@.len() implies unknown_end(
            #[trigger] edges[i],
            views(r@),
        ) is None by {
            gather_holds(edges.len() as int, f, i, 0);
            gather_holds(edges.len() as int, f, i, 1);
            let at = gather(i, f).len() as int;
            assert(all[at] == edges[i].device1);
            assert(all[at + 1] == edges[i].device2);
            assert(all.contains(edges[i].device1) && all.contains(edges[i].device2));
            assert(views(r@).contains(edges[i].device1) && views(r@).contains(edges[i].device2));
        }
        assert forall|i: int| 0 <= i < demands@.len() implies views(r@).contains(
            (#[trigger] flows[i]).start,
        ) && views(r@).contains(flows[i].end) by {
            gather_holds(flows.len() as int, g, i, 0);
            gather_holds(flows.len() as int, g, i, 1);
            let at = (base.len() + gather(i, g).len()) as int;
            assert(all[at] == flows[i].start);
            assert(all[at + 1] == flows[i].end);
            assert(all.contains(flows[i].start) && all.contains(flows[i].end));
        }
    }
    r
}

/// The largest bandwidth group.
pub open spec fn max_shared(edges: Seq<EdgeRow>) -> int
    decreases edges.len(),
{
    if edges.len() == 0 {
        0
    } else {
        let rest = max_shared(edges.drop_last());
        if edges.last().shared > rest {
            edges.last().shared as int
        } else {
            rest
        }
    }
}

/// No group exceeds the largest, and the largest is the group of an edge.
pub proof fn max_shared_bounds(edges: Seq<EdgeRow>) -> (at: int)
    ensures
        0 <= max_shared(edges) <= u32::MAX,
        forall|i: int| 0 <= i < edges.len() ==> (#[trigger] edges[i]).shared <= max_shared(edges),
        max_shared(edges) > 0 ==> 0 <= at < edges.len() && edges[at].shared == max_shared(edges),
    decreases edges.len(),
{
    if edges.len() == 0 {
        0
    } else {
        let front = edges.drop_last();
        let at = max_shared_bounds(front);
        assert forall|i: int| 0 <= i < edges.len() implies (#[trigger] edges[i]).shared
            <= max_shared(edges) by {
            if i < front.len() {
                assert(front[i] == edges[i]);
            }
        }
        if edges.last().shared > max_shared(front) {
            edges.len() - 1
        } else {
            at
        }
    }
}

/// Finds the largest bandwidth group.
fn find_max_shared(links: &[ConsolidatedLink]) -> (r: u32)
    ensures
        r == max_shared(views(links@)),
{
    let ghost edges = views(links@);
    let mut top: u32 = 0;
    for i in 0..links.len()
        invariant
            edges == views(links@),
            top == max_shared(edges.take(i as int)),
    {
        assert(edges.take(i + 1).drop_last() =~= edges.take(i as int));
        assert(edges.take(i + 1).last() == links@[i as int]@);
        if links[i].shared > top {
            top = links[i].shared;
        }
    }
    assert(edges.take(links@.len() as int) =~= edges);
    top
}

/// The first edge of a bandwidth group.
pub open spec fn opens_group(edges: Seq<EdgeRow>, id: u32, i: int) -> bool {
    &&& 0 <= i < edges.len()
    &&& edges[i].shared == id
    &&& forall|k: int| 0 <= k < i ==> (#[trigger] edges[k]).shared != id
}

/// The first edge of a bandwidth group, whose bandwidth and operators count.
pub open spec fn group_opener(edges: Seq<EdgeRow>, id: u32) -> EdgeRow {
    edges[choose|i: int| opens_group(edges, id, i)]
}

/// The first edges of the bandwidth groups in use, in the order of the groups.
pub open spec fn group_openers(edges: Seq<EdgeRow>) -> Seq<EdgeRow> {
    let ids = sorted_ids(used_ids(edges));
    Seq::new(ids.len(), |r: int| group_opener(edges, ids[r]))
}

/// Finds the places of the first edges of the bandwidth groups.
fn find_openers(links: &[ConsolidatedLink], n: usize) -> (r: Vec<usize>)
    requires
        n <= links@.len(),
    ensures
        r@.len() == group_openers(views(links@).take(n as int)).len(),
        forall|k: int|
            0 <= k < r@.len() ==> #[trigger] r@[k] < links@.len() && links@[r@[k] as int]@
                == group_openers(views(links@).take(n as int))[k],
{
    let ghost edges = views(links@).take(n as int);
    let ghost f = |i: int|
        if edges[i].shared > 0 {
            seq![edges[i].shared]
        } else {
            Seq::empty()
        };
    let mut ids: Vec<u32> = Vec::new();
    assert(ids@ =~= gather(0, f));
    for i in 0..n
        invariant
            n <= links@.len(),
            edges == views(links@).take(n as int),
            f == (|i: int|
                if edges[i].shared > 0 {
                    seq![edges[i].shared]
                } else {
                    Seq::empty()
                }),
            ids@ == gather(i as int, f),
    {
        assert(edges[i as int] == links@[i as int]@);
        let ghost before = ids@;
        if links[i].shared > 0 {
            ids.push(links[i].shared);
        }
        assert(ids@ =~= before + f(i as int));
    }
    assert(ids@ == used_ids(edges));
    let sorted = sort_ids(ids.as_slice());
    let ghost openers = group_openers(edges);
    let mut out: Vec<usize> = Vec::new();
    for k in 0..sorted.len()
        invariant
            n <= links@.len(),
            edges == views(links@).take(n as int),
            f == (|i: int|
                if edges[i].shared > 0 {
                    seq![edges[i].shared]
                } else {
                    Seq::empty()
                }),
            ids@ == gather(n as int, f),
            sorted_of(sorted@, ids@),
            sorted@ == sorted_ids(used_ids(edges)),
            openers == group_openers(edges),
            out@.len() == k,
            forall|j: int|
                0 <= j < k ==> #[trigger] out@[j] < links@.len() && links@[out@[j] as int]@
                    == openers[j],
    {
        let id: u32 = sorted[k];
        let ghost mut at: int = 0;
        proof {
            assert(sorted@.contains(id));
            assert(ids@.contains(id));
            let m = choose|m: int| 0 <= m < ids@.len() && ids@[m] == id;
            let (i, j) = gather_member(n as int, f, m);
            at = i;
            assert(edges[at].shared == id);
        }
        let mut i: usize = 0;
        while links[i].shared != id
            invariant
                n <= links@.len(),
                edges == views(links@).take(n as int),
                0 <= i <= at < n,
                edges[at].shared == id,
                forall|k: int| 0 <= k < i ==> (#[trigger] edges[k]).shared != id,
            decreases at - i,
        {
            assert(edges[i as int] == links@[i as int]@);
            i = i + 1;
        }
        assert(edges[i as int] == links@[i as int]@);
        proof {
            assert(opens_group(edges, id, i as int));
            let c = choose|c: int| opens_group(edges, id, c);
            if c < i {
                assert(edges[c].shared != id);
            } else if i < c {
                assert(edges[i as int].shared != id);
            }
        }
        out.push(i);
    }
    out
}

/// Each private edge that is no trunk is listed once as plain.
proof fn plain_once(edges: Seq<EdgeRow>, n: int, j: int)
    requires
        0 <= j,
        n <= edges.len(),
        edges.len() <= usize::MAX,
    ensures
        occurrences(
            gather(
                n,
                |i: int|
                    if is_plain(edges[i]) {
                        seq![i as usize]
                    } else {
                        Seq::empty()
                    },
            ),
            j,
        ) == if j < n && is_plain(edges[j]) {
            1nat
        } else {
            0nat
        },
    decreases n,
{
    let f = |i: int|
        if is_plain(edges[i]) {
            seq![i as usize]
        } else {
            Seq::empty()
        };
    if n > 0 {
        plain_once(edges, n - 1, j);
        let head = gather(n - 1, f);
        if is_plain(edges[n - 1]) {
            assert(gather(n, f) =~= head.push((n - 1) as usize));
            assert(head.push((n - 1) as usize).drop_last() =~= head);
        } else {
            assert(gather(n, f) =~= head);
        }
    }
}

/// A column that counts an edge at most once adds up to at most one.
proof fn group_sum(edge: EdgeRow, max: int, times: nat, r: int)
    requires
        times <= 1,
    ensures
        0 <= place_sum(group_column(edge, max, times), r) <= 1,
{
    let col = group_column(edge, max, times);
    reveal_with_fuel(place_sum, 2);
    if col.len() > 0 {
        assert(col.drop_last() =~= Seq::<(usize, i32)>::empty());
    }
}

/// The columns of the bandwidth constraints: for each commodity all private edges,
/// or the plain ones where the commodity is multicast; then for each multicast
/// group the trunks.
pub open spec fn bandwidth_cols(edges: Seq<EdgeRow>, flags: Seq<bool>, n_groups: int) -> Seq<
    Seq<(usize, i32)>,
> {
    let all = j1_cols(edges, private_count(edges) as int, max_shared(edges));
    let plain = j2_cols(edges, plains(edges), max_shared(edges));
    gather(
        flags.len() as int,
        |k: int|
            if flags[k] {
                plain
            } else {
                all
            },
    ) + gather(n_groups, |g: int| picked(all, trunks(edges)))
}

/// The trunks are edges, and none of them is plain.
pub proof fn trunks_are_edges(edges: Seq<EdgeRow>)
    requires
        edges.len() <= usize::MAX,
    ensures
        forall|e: int|
            0 <= e < trunks(edges).len() ==> (#[trigger] trunks(edges)[e]) < edges.len()
                && is_trunk(edges[trunks(edges)[e] as int]),
{
    let f = |i: int|
        if is_trunk(edges[i]) {
            seq![i as usize]
        } else {
            Seq::empty()
        };
    assert forall|e: int| 0 <= e < trunks(edges).len() implies (#[trigger] trunks(edges)[e])
        < edges.len() && is_trunk(edges[trunks(edges)[e] as int]) by {
        let (i, j) = gather_member(edges.len() as int, f, e);
    }
}

/// Without a private edge nothing counts against any group, however many there are.
proof fn nothing_counts(edges: Seq<EdgeRow>, a: int, b: int)
    requires
        private_count(edges) == 0,
        edges.len() <= usize::MAX,
    ensures
        j1_cols(edges, 0, a) == j1_cols(edges, 0, b),
        j2_cols(edges, plains(edges), a) == j2_cols(edges, plains(edges), b),
{
    let p = |i: int| !is_public(edges[i]);
    let none = |j: int| Seq::<(usize, i32)>::empty();
    assert forall|j: int, m: int| 0 <= j < edges.len() implies #[trigger] group_column(
        edges[j],
        m,
        occurrences(plains(edges), j),
    ) =~= Seq::<(usize, i32)>::empty() by {
        if p(j) {
            count_grows(j, edges.len() as int, p, p);
            count_grows(j + 1, edges.len() as int, p, p);
        }
        plain_once(edges, edges.len() as int, j);
    }
    assert forall|j: int, m: int| 0 <= j < edges.len() implies #[trigger] group_column(edges[j], m, 0)
        =~= Seq::<(usize, i32)>::empty() by {}
    assert(j1_cols(edges, 0, a) =~= Seq::new(edges.len(), none));
    assert(j1_cols(edges, 0, b) =~= Seq::new(edges.len(), none));
    assert(j2_cols(edges, plains(edges), a) =~= Seq::new(edges.len(), none));
    assert(j2_cols(edges, plains(edges), b) =~= Seq::new(edges.len(), none));
}

/// Builds the bandwidth constraints: the matrix, the limits, and the operators of
/// its rows.
#[verifier::rlimit(30)]
fn build_bandwidth_constraints(
    links: &[ConsolidatedLink],
    n_private: usize,
    flags: &[bool],
    mcast_eligible: &[usize],
    mcast_ineligible: &[usize],
    n_multicast_groups: usize,
) -> (r: Result<(CscMatrix<i32>, Vec<Real>, Vec<String>, Vec<String>), ShapleyError>)
    requires
        n_private == private_count(views(links@)),
        n_private <= links@.len(),
        mcast_eligible@ == trunks(views(links@)),
        mcast_ineligible@ == plains(views(links@)),
        flags@.len() == 0 ==> n_multicast_groups == 0,
    ensures
        r matches Ok((a, limits, op1, op2)) && ({
            let edges = views(links@);
            let openers = group_openers(edges.take(n_private as int));
            &&& a.wf()
            &&& a.rows_fit()
            &&& a.m == if flags@.len() == 0 || n_private == 0 {
                0
            } else {
                max_shared(edges)
            }
            &&& a.n == bandwidth_cols(edges, flags@, n_multicast_groups as int).len()
            &&& a.cols() == bandwidth_cols(edges, flags@, n_multicast_groups as int)
            &&& limits@ == openers.map_values(|e: EdgeRow| e.bandwidth)
            &&& views(op1@) == openers.map_values(|e: EdgeRow| e.operator1)
            &&& views(op2@) == openers.map_values(|e: EdgeRow| e.operator2)
        }),
{
    let ghost edges = views(links@);
    let top: usize = if n_private == 0 {
        0
    } else {
        find_max_shared(links) as usize
    };
    let ghost all = j1_cols(edges, n_private as int, top as int);
    let ghost plain = j2_cols(edges, plains(edges), top as int);
    proof {
        if n_private == 0 {
            assert(links.len() == edges.len());
            nothing_counts(edges, top as int, max_shared(edges));
        }
    }
    let j1 = match build_j1_matrix(links, n_private, top) {
        Ok(a) => a,
        Err(e) => {
            return Err(e);
        },
    };
    let j2 = match build_j2_matrix(links, mcast_ineligible, top) {
        Ok(a) => a,
        Err(e) => {
            return Err(e);
        },
    };
    let ghost f = |k: int|
        if flags@[k] {
            plain
        } else {
            all
        };
    let ghost g = |k: int| picked(all, trunks(edges));
    let mut blocks: Vec<&CscMatrix<i32>> = Vec::new();
    for k in 0..flags.len()
        invariant
            blocks@.len() == k,
            forall|i: int|
                0 <= i < k ==> #[trigger] blocks@[i] == (if flags@[i] {
                    &j2
                } else {
                    &j1
                }),
    {
        if flags[k] {
            blocks.push(&j2);
        } else {
            blocks.push(&j1);
        }
    }
    let mut matrix = if blocks.len() > 0 {
        proof {
            side_gathered(blocks@, f);
        }
        match hstack_matrices(blocks.as_slice()) {
            Ok(a) => a,
            Err(e) => {
                return Err(e);
            },
        }
    } else {
        let writer: ColumnWriter<i32> = ColumnWriter::start();
        writer.finish(0)
    };
    assert(matrix.cols() =~= gather(flags@.len() as int, f));
    let openers = find_openers(links, n_private);
    let ghost firsts = group_openers(edges.take(n_private as int));
    let mut limits: Vec<Real> = Vec::new();
    let mut op1: Vec<String> = Vec::new();
    let mut op2: Vec<String> = Vec::new();
    for k in 0..openers.len()
        invariant
            openers@.len() == firsts.len(),
            forall|k: int|
                0 <= k < openers@.len() ==> #[trigger] openers@[k] < links@.len()
                    && links@[openers@[k] as int]@ == firsts[k],
            limits@.len() == k,
            op1@.len() == k,
            op2@.len() == k,
            forall|i: int| 0 <= i < k ==> #[trigger] limits@[i] == firsts[i].bandwidth,
            forall|i: int| 0 <= i < k ==> (#[trigger] op1@[i])@ == firsts[i].operator1,
            forall|i: int| 0 <= i < k ==> (#[trigger] op2@[i])@ == firsts[i].operator2,
    {
        let at: usize = openers[k];
        limits.push(links[at].bandwidth);
        op1.push(links[at].operator1.clone());
        op2.push(links[at].operator2.clone());
    }
    proof {
        assert(limits@ =~= firsts.map_values(|e: EdgeRow| e.bandwidth));
        assert(views(op1@) =~= firsts.map_values(|e: EdgeRow| e.operator1));
        assert(views(op2@) =~= firsts.map_values(|e: EdgeRow| e.operator2));
    }
    if n_multicast_groups > 0 && mcast_eligible.len() > 0 {
        proof {
            assert forall|j: int, r: int| 0 <= j < j1.n implies i32::MIN <= #[trigger] place_gap(
                j1.cols()[j],
                j2.cols()[j],
                r,
            ) <= i32::MAX by {
                plain_once(edges, edges.len() as int, j);
                group_sum(
                    edges[j],
                    top as int,
                    if j < n_private {
                        1
                    } else {
                        0
                    },
                    r,
                );
                group_sum(edges[j], top as int, occurrences(plains(edges), j), r);
            }
            trunks_are_edges(edges);
        }
        let gap = match compute_j1_minus_j2(&j1, &j2) {
            Ok(a) => a,
            Err(e) => {
                return Err(e);
            },
        };
        let picked_gap = match extract_mcast_eligible_columns(&gap, mcast_eligible) {
            Ok(a) => a,
            Err(e) => {
                return Err(e);
            },
        };
        proof {
            assert forall|e: int| 0 <= e < mcast_eligible@.len() implies #[trigger] picked(
                gap.cols(),
                mcast_eligible@,
            )[e] == picked(all, trunks(edges))[e] by {
                let j = trunks(edges)[e] as int;
                plain_once(edges, edges.len() as int, j);
                assert(!is_plain(edges[j]));
                assert(j2.cols()[j].len() == 0);
                gap_of_nothing(
                    gap.cols()[j],
                    edges[j],
                    top as int,
                    if j < n_private {
                        1
                    } else {
                        0
                    },
                    j2.cols()[j],
                );
            }
            assert(picked(gap.cols(), mcast_eligible@) =~= picked(all, trunks(edges)));
        }
        let mut more: Vec<&CscMatrix<i32>> = Vec::new();
        for k in 0..n_multicast_groups
            invariant
                more@.len() == k,
                forall|i: int| 0 <= i < k ==> #[trigger] more@[i] == &picked_gap,
        {
            more.push(&picked_gap);
        }
        proof {
            side_gathered(more@, g);
        }
        let extension = match hstack_matrices(more.as_slice()) {
            Ok(a) => a,
            Err(e) => {
                return Err(e);
            },
        };
        let mut pair: Vec<&CscMatrix<i32>> = Vec::new();
        pair.push(&matrix);
        pair.push(&extension);
        let ghost parts = |k: int| pair@[k].cols();
        proof {
            side_gathered(pair@, parts);
            reveal_with_fuel(gather, 3);
            assert(gather(2, parts) =~= matrix.cols() + extension.cols());
        }
        matrix = match hstack_matrices(pair.as_slice()) {
            Ok(a) => a,
            Err(e) => {
                return Err(e);
            },
        };
        assert(matrix.cols() =~= bandwidth_cols(edges, flags@, n_multicast_groups as int));
    } else {
        proof {
            empty_pieces(n_multicast_groups as int, g);
            assert(matrix.cols() =~= bandwidth_cols(edges, flags@, n_multicast_groups as int));
        }
    }
    Ok((matrix, limits, op1, op2))
}

/// Nothing is gathered from empty pieces.
proof fn empty_pieces<T>(n: int, f: spec_fn(int) -> Seq<T>)
    requires
        forall|i: int| 0 <= i < n ==> (#[trigger] f(i)).len() == 0,
    ensures
        gather(n, f) == Seq::<T>::empty(),
    decreases n,
{
    if n > 0 {
        empty_pieces(n - 1, f);
        assert(f(n - 1).len() == 0);
        assert(gather(n, f) =~= Seq::<T>::empty());
    }
}

/// A multicast flow that somebody receives.
pub open spec fn is_heard(flow: FlowRow) -> bool {
    flow.multicast && flow.receivers > 0
}

/// How many of the first `d` flows are multicast and received.
pub open spec fn heard_before(flows: Seq<FlowRow>, d: int) -> nat {
    count_where(d, |i: int| is_heard(flows[i]))
}

/// The entries that tie the flow of one receiver group on a trunk to what the
/// trunk carries for all of them: the flow over its receivers is at most the
/// latter.
pub open spec fn tie_entries(
    flows: Seq<FlowRow>,
    commodities: Seq<u32>,
    groups: Seq<u32>,
    trunk: Seq<usize>,
    n_links: int,
    d: int,
    e: int,
) -> Seq<(usize, usize, Share)> {
    let row = (heard_before(flows, d) * trunk.len() + e) as usize;
    let flow_col = (commodities.index_of(flows[d].kind) * n_links + trunk[e]) as usize;
    let trunk_col = (commodities.len() * n_links + groups.index_of(flows[d].original) * trunk.len()
        + e) as usize;
    seq![
        (row, flow_col, Share { num: 1, den: flows[d].receivers }),
        (row, trunk_col, Share { num: -1i32, den: 1 }),
    ]
}

/// All such entries, a row for each flow and trunk.
pub open spec fn ties(
    flows: Seq<FlowRow>,
    commodities: Seq<u32>,
    groups: Seq<u32>,
    trunk: Seq<usize>,
    n_links: int,
) -> Seq<(usize, usize, Share)> {
    gather(
        flows.len() as int,
        |d: int|
            if is_heard(flows[d]) {
                gather(
                    trunk.len() as int,
                    |e: int| tie_entries(flows, commodities, groups, trunk, n_links, d, e),
                )
            } else {
                Seq::empty()
            },
    )
}

/// A place in a table of `k` rows of `n` lies within the table.
pub proof fn flat_index(i: int, j: int, k: int, n: int)
    requires
        0 <= i < k,
        0 <= j < n,
    ensures
        0 <= i * n,
        i * n + j < k * n,
        0 <= k * n,
{
    assert(i * n + n <= k * n) by (nonlinear_arith)
        requires
            i + 1 <= k,
            n > 0,
    ;
    assert(0 <= i * n) by (nonlinear_arith)
        requires
            0 <= i,
            0 < n,
    ;
}

/// In a list without repetition, the place of a member is where it stands.
pub proof fn index_found(s: Seq<u32>, x: u32, p: int)
    requires
        ordered(s, below()),
        0 <= p < s.len(),
        s[p] == x,
    ensures
        s.index_of(x) == p,
{
    let q = s.index_of(x);
    assert(0 <= q < s.len() && s[q] == x);
    if q < p {
        assert(below()(s[q], s[p]));
    } else if p < q {
        assert(below()(s[p], s[q]));
    }
}

/// Builds the constraints that tie multicast flows to what the trunks carry.
fn build_within_group_constraints(
    demands: &[ConsolidatedDemand],
    commodities: &[u32],
    multicast_groups: &[u32],
    mcast_eligible: &[usize],
    n_links: usize,
    n_total_cols: usize,
) -> (r: CscMatrix<Share>)
    requires
        ordered(commodities@, below()),
        ordered(multicast_groups@, below()),
        forall|d: int|
            0 <= d < demands@.len() ==> commodities@.contains((#[trigger] views(demands@)[d]).kind),
        forall|d: int|
            0 <= d < demands@.len() && (#[trigger] views(demands@)[d]).multicast
                ==> multicast_groups@.contains(views(demands@)[d].original),
        forall|e: int| 0 <= e < mcast_eligible@.len() ==> #[trigger] mcast_eligible@[e] < n_links,
        commodities@.len() * n_links + multicast_groups@.len() * mcast_eligible@.len()
            == n_total_cols,
        heard_before(views(demands@), demands@.len() as int) * mcast_eligible@.len() <= usize::MAX,
    ensures
        r.wf(),
        r.rows_fit(),
        r.m == heard_before(views(demands@), demands@.len() as int) * mcast_eligible@.len(),
        r.n == n_total_cols,
        r.cols() == placed_cols(
            ties(
                views(demands@),
                commodities@,
                multicast_groups@,
                mcast_eligible@,
                n_links as int,
            ),
            n_total_cols as int,
        ),
{
    let ghost flows = views(demands@);
    let ghost n = n_links as int;
    let ghost width = mcast_eligible@.len() as int;
    let ghost heard = |i: int| is_heard(flows[i]);
    let ghost f = |d: int|
        if is_heard(flows[d]) {
            gather(
                width,
                |e: int|
                    tie_entries(
                        flows,
                        commodities@,
                        multicast_groups@,
                        mcast_eligible@,
                        n,
                        d,
                        e,
                    ),
            )
        } else {
            Seq::empty()
        };
    let mut triplets: Vec<(usize, usize, Share)> = Vec::new();
    let mut n_rows: usize = 0;
    proof {
        assert(triplets@ =~= gather(0, f));
        assert(0 * width == 0) by (nonlinear_arith);
    }
    for d in 0..demands.len()
        invariant
            flows == views(demands@),
            n == n_links,
            width == mcast_eligible@.len(),
            heard == (|i: int| is_heard(flows[i])),
            f == (|d: int|
                if is_heard(flows[d]) {
                    gather(
                        width,
                        |e: int|
                            tie_entries(
                                flows,
                                commodities@,
                                multicast_groups@,
                                mcast_eligible@,
                                n,
                                d,
                                e,
                            ),
                    )
                } else {
                    Seq::<(usize, usize, Share)>::empty()
                }),
            ordered(commodities@, below()),
            ordered(multicast_groups@, below()),
            forall|d: int|
                0 <= d < demands@.len() ==> commodities@.contains((#[trigger] flows[d]).kind),
            forall|d: int|
                0 <= d < demands@.len() && (#[trigger] flows[d]).multicast
                    ==> multicast_groups@.contains(flows[d].original),
            forall|e: int|
                0 <= e < mcast_eligible@.len() ==> #[trigger] mcast_eligible@[e] < n_links,
            commodities@.len() * n + multicast_groups@.len() * width == n_total_cols,
            heard_before(flows, demands@.len() as int) * width <= usize::MAX,
            triplets@ == gather(d as int, f),
            n_rows == count_where(d as int, heard) * width,
            forall|k: int|
                0 <= k < triplets@.len() ==> (#[trigger] triplets@[k]).0 < n_rows && triplets@[k].1
                    < n_total_cols,
    {
        let demand = &demands[d];
        assert(demand@ == flows[d as int]);
        let ghost done = count_where(d as int, heard) as int;
        proof {
            count_grows(d + 1, demands@.len() as int, heard, heard);
            let most = heard_before(flows, demands@.len() as int) as int;
            let next = count_where(d + 1, heard) as int;
            assert(next * width <= most * width) by (nonlinear_arith)
                requires
                    next <= most,
                    width >= 0,
            ;
            assert((done + 1) * width == done * width + width) by (nonlinear_arith);
        }
        if demand.multicast && demand.receivers > 0 {
            let k: usize = match find_id(commodities, demand.kind) {
                Some(k) => k,
                None => 0,
            };
            let g: usize = match find_id(multicast_groups, demand.original) {
                Some(g) => g,
                None => 0,
            };
            proof {
                index_found(commodities@, demand.kind, k as int);
                index_found(multicast_groups@, demand.original, g as int);
            }
            let ghost h = |e: int|
                tie_entries(
                    flows,
                    commodities@,
                    multicast_groups@,
                    mcast_eligible@,
                    n,
                    d as int,
                    e,
                );
            let ghost before = triplets@;
            assert(before =~= before + gather(0, h));
            let ghost first = n_rows as int;
            for e in 0..mcast_eligible.len()
                invariant
                    flows == views(demands@),
                    demand@ == flows[d as int],
                    n == n_links,
                    width == mcast_eligible@.len(),
                    heard == (|i: int| is_heard(flows[i])),
                    h == (|e: int|
                        tie_entries(
                            flows,
                            commodities@,
                            multicast_groups@,
                            mcast_eligible@,
                            n,
                            d as int,
                            e,
                        )),
                    k == commodities@.index_of(demand.kind),
                    k < commodities@.len(),
                    g == multicast_groups@.index_of(demand.original),
                    g < multicast_groups@.len(),
                    forall|e: int|
                        0 <= e < mcast_eligible@.len() ==> #[trigger] mcast_eligible@[e] < n_links,
                    commodities@.len() * n + multicast_groups@.len() * width == n_total_cols,
                    first == count_where(d as int, heard) * width,
                    first + width <= usize::MAX,
                    n_rows == first + e,
                    triplets@ == before + gather(e as int, h),
                    forall|k: int|
                        0 <= k < triplets@.len() ==> (#[trigger] triplets@[k]).0 < n_rows
                            && triplets@[k].1 < n_total_cols,
            {
                let link: usize = mcast_eligible[e];
                proof {
                    flat_index(k as int, link as int, commodities@.len() as int, n);
                    flat_index(g as int, e as int, multicast_groups@.len() as int, width);
                }
                let flow_col: usize = k * n_links + link;
                let trunk_col: usize = commodities.len() * n_links + g * mcast_eligible.len() + e;
                let ghost so_far = triplets@;
                triplets.push((n_rows, flow_col, Share { num: 1, den: demand.receivers }));
                triplets.push((n_rows, trunk_col, Share { num: -1, den: 1 }));
                n_rows = n_rows + 1;
                proof {
                    assert(triplets@ =~= so_far + h(e as int));
                    assert(triplets@ =~= before + gather(e + 1, h));
                }
            }
            assert(f(d as int) == gather(width, h));
        } else {
            assert(triplets@ =~= triplets@ + f(d as int));
        }
    }
    matrix_from_triplets(&triplets, n_rows, n_total_cols)
}

/// The members of `all` that `keep` names, in its order; places beyond the end are
/// passed over.
pub open spec fn kept<T>(all: Seq<T>, keep: Seq<usize>) -> Seq<T> {
    gather(
        keep.len() as int,
        |q: int|
            if keep[q] < all.len() {
                seq![all[keep[q] as int]]
            } else {
                Seq::empty()
            },
    )
}

/// An operator of an edge: that of its far end, or that of its near one.
pub open spec fn operator_at(edge: EdgeRow, far: bool) -> Seq<char> {
    if far {
        edge.operator2
    } else {
        edge.operator1
    }
}

/// The operators of the edges at `places`.
pub open spec fn operators_at(edges: Seq<EdgeRow>, places: Seq<usize>, far: bool) -> Seq<
    Seq<char>,
> {
    gather(
        places.len() as int,
        |e: int|
            if places[e] < edges.len() {
                seq![operator_at(edges[places[e] as int], far)]
            } else {
                Seq::empty()
            },
    )
}

/// The operators of all columns: the edges once for each commodity, then the
/// trunks once for each multicast group.
pub open spec fn column_operators(
    edges: Seq<EdgeRow>,
    n_commodities: int,
    trunk: Seq<usize>,
    n_groups: int,
    far: bool,
) -> Seq<Seq<char>> {
    gather(
        n_commodities,
        |k: int| Seq::new(edges.len(), |i: int| operator_at(edges[i], far)),
    ) + gather(n_groups, |g: int| operators_at(edges, trunk, far))
}

/// The operator of an edge at one of its ends.
fn pick_operator(link: &ConsolidatedLink, far: bool) -> (r: String)
    ensures
        r@ == operator_at(link@, far),
{
    if far {
        link.operator2.clone()
    } else {
        link.operator1.clone()
    }
}

/// Appends the operators of the edges at `places`.
fn append_operators(
    out: &mut Vec<String>,
    links: &[ConsolidatedLink],
    places: &[usize],
    far: bool,
)
    ensures
        views(final(out)@) == views(old(out)@) + operators_at(views(links@), places@, far),
{
    let ghost edges = views(links@);
    let ghost start = views(out@);
    let ghost f = |e: int|
        if places@[e] < edges.len() {
            seq![operator_at(edges[places@[e] as int], far)]
        } else {
            Seq::empty()
        };
    assert(start =~= start + gather(0, f));
    for e in 0..places.len()
        invariant
            edges == views(links@),
            f == (|e: int|
                if places@[e] < edges.len() {
                    seq![operator_at(edges[places@[e] as int], far)]
                } else {
                    Seq::empty()
                }),
            views(out@) == start + gather(e as int, f),
    {
        let ghost before = views(out@);
        let at: usize = places[e];
        if at < links.len() {
            assert(edges[at as int] == links@[at as int]@);
            out.push(pick_operator(&links[at], far));
        }
        assert(views(out@) =~= before + f(e as int));
        assert(views(out@) =~= start + gather(e + 1, f));
    }
}

/// Lists the operators of the kept columns.
fn build_column_operators(
    links: &[ConsolidatedLink],
    n_commodities: usize,
    mcast_eligible: &[usize],
    keep: &[usize],
    n_multicast_groups: usize,
    far: bool,
) -> (r: Vec<String>)
    ensures
        views(r@) == kept(
            column_operators(
                views(links@),
                n_commodities as int,
                mcast_eligible@,
                n_multicast_groups as int,
                far,
            ),
            keep@,
        ),
{
    let ghost edges = views(links@);
    let ghost names = Seq::new(edges.len(), |i: int| operator_at(edges[i], far));
    let ghost f = |k: int| Seq::new(edges.len(), |i: int| operator_at(edges[i], far));
    let ghost g = |k: int| operators_at(edges, mcast_eligible@, far);
    let mut all: Vec<String> = Vec::new();
    assert(views(all@) =~= gather(0, f));
    for k in 0..n_commodities
        invariant
            edges == views(links@),
            names == Seq::new(edges.len(), |i: int| operator_at(edges[i], far)),
            f == (|k: int| Seq::new(edges.len(), |i: int| operator_at(edges[i], far))),
            views(all@) == gather(k as int, f),
    {
        let ghost before = views(all@);
        assert(before =~= before + names.take(0));
        for i in 0..links.len()
            invariant
                edges == views(links@),
                names == Seq::new(edges.len(), |i: int| operator_at(edges[i], far)),
                views(all@) == before + names.take(i as int),
        {
            assert(edges[i as int] == links@[i as int]@);
            let operator = pick_operator(&links[i], far);
            proof {
                views_push(all@, operator);
            }
            all.push(operator);
            assert(views(all@) =~= before + names.take(i + 1));
        }
        assert(names.take(edges.len() as int) =~= names);
        assert(f(k as int) == names);
    }
    let ghost base = views(all@);
    assert(base =~= base + gather(0, g));
    for k in 0..n_multicast_groups
        invariant
            edges == views(links@),
            g == (|k: int| operators_at(edges, mcast_eligible@, far)),
            views(all@) == base + gather(k as int, g),
    {
        append_operators(&mut all, links, mcast_eligible, far);
        assert(views(all@) =~= base + gather(k + 1, g));
    }
    let ghost whole = column_operators(
        edges,
        n_commodities as int,
        mcast_eligible@,
        n_multicast_groups as int,
        far,
    );
    assert(views(all@) == whole);
    let ghost h = |q: int|
        if keep@[q] < whole.len() {
            seq![whole[keep@[q] as int]]
        } else {
            Seq::empty()
        };
    let mut out: Vec<String> = Vec::new();
    assert(views(out@) =~= gather(0, h));
    for q in 0..keep.len()
        invariant
            whole == views(all@),
            h == (|q: int|
                if keep@[q] < whole.len() {
                    seq![whole[keep@[q] as int]]
                } else {
                    Seq::empty()
                }),
            views(out@) == gather(q as int, h),
    {
        let ghost before = views(out@);
        let at: usize = keep[q];
        if at < all.len() {
            assert(whole[at as int] == all@[at as int]@);
            out.push(all[at].clone());
        }
        assert(views(out@) =~= before + h(q as int));
    }
    out
}

/// Lists the operators of the kept columns at the near ends of their edges.
pub fn build_column_operators1(
    links: &[ConsolidatedLink],
    commodities: &[u32],
    _multicast_commodities: &[u32],
    mcast_eligible: &[usize],
    keep: &[usize],
    n_multicast_groups: usize,
) -> (r: Vec<String>)
    ensures
        views(r@) == kept(
            column_operators(
                views(links@),
                commodities@.len() as int,
                mcast_eligible@,
                n_multicast_groups as int,
                false,
            ),
            keep@,
        ),
{
    build_column_operators(links, commodities.len(), mcast_eligible, keep, n_multicast_groups, false)
}

/// Lists the operators of the kept columns at the far ends of their edges.
pub fn build_column_operators2(
    links: &[ConsolidatedLink],
    commodities: &[u32],
    _multicast_commodities: &[u32],
    mcast_eligible: &[usize],
    keep: &[usize],
    n_multicast_groups: usize,
) -> (r: Vec<String>)
    ensures
        views(r@) == kept(
            column_operators(
                views(links@),
                commodities@.len() as int,
                mcast_eligible@,
                n_multicast_groups as int,
                true,
            ),
            keep@,
        ),
{
    build_column_operators(links, commodities.len(), mcast_eligible, keep, n_multicast_groups, true)
}

/// A flow's part in the balance of a node: its traffic times its receivers, added
/// where the flow starts, taken away where it ends.
#[derive(Clone, Copy, Debug, PartialEq, Eq, Structural)]
pub struct Term {
    pub flow: usize,
    pub starts: bool,
}

/// The row of a flow's node in the block of its commodity.
pub open spec fn balance_row(
    nodes: Seq<Seq<char>>,
    commodities: Seq<u32>,
    kind: u32,
    name: Seq<char>,
) -> int {
    commodities.index_of(kind) * nodes.len() + place(nodes, name)
}

/// The parts that flow `d` has in row `row`.
pub open spec fn balance_part(
    flows: Seq<FlowRow>,
    nodes: Seq<Seq<char>>,
    commodities: Seq<u32>,
    row: int,
    d: int,
) -> Seq<Term> {
    let out = if balance_row(nodes, commodities, flows[d].kind, flows[d].start) == row {
        seq![Term { flow: d as usize, starts: true }]
    } else {
        Seq::empty()
    };
    let into = if balance_row(nodes, commodities, flows[d].kind, flows[d].end) == row {
        seq![Term { flow: d as usize, starts: false }]
    } else {
        Seq::empty()
    };
    out + into
}

/// What row `row` has to balance.
pub open spec fn balance(
    flows: Seq<FlowRow>,
    nodes: Seq<Seq<char>>,
    commodities: Seq<u32>,
    row: int,
) -> Seq<Term> {
    gather(flows.len() as int, |d: int| balance_part(flows, nodes, commodities, row, d))
}

/// The lists in a list of lists.
pub open spec fn inner<T>(lists: Seq<Vec<T>>) -> Seq<Seq<T>> {
    Seq::new(lists.len(), |i: int| lists[i]@)
}

/// Lists what each node has to balance for each commodity.
fn build_flow_requirements(
    demands: &[ConsolidatedDemand],
    commodities: &[u32],
    nodes: &[String],
) -> (r: Vec<Vec<Term>>)
    requires
        ordered(commodities@, below()),
        forall|d: int|
            0 <= d < demands@.len() ==> commodities@.contains((#[trigger] views(demands@)[d]).kind)
                && views(nodes@).contains(views(demands@)[d].start) && views(nodes@).contains(
                views(demands@)[d].end,
            ),
        nodes@.len() * commodities@.len() <= usize::MAX,
    ensures
        inner(r@) == Seq::new(
            (nodes@.len() * commodities@.len()) as nat,
            |row: int| balance(views(demands@), views(nodes@), commodities@, row),
        ),
{
    let ghost flows = views(demands@);
    let ghost names = views(nodes@);
    let total: usize = nodes.len() * commodities.len();
    let mut out: Vec<Vec<Term>> = Vec::new();
    let ghost parts = |row: int| (|d: int| balance_part(flows, names, commodities@, row, d));
    for row in 0..total
        invariant
            out@.len() == row,
            forall|i: int| 0 <= i < row ==> (#[trigger] out@[i])@ == Seq::<Term>::empty(),
    {
        out.push(Vec::new());
    }
    for d in 0..demands.len()
        invariant
            flows == views(demands@),
            names == views(nodes@),
            names.len() == nodes@.len(),
            parts == (|row: int| (|d: int| balance_part(flows, names, commodities@, row, d))),
            ordered(commodities@, below()),
            forall|d: int|
                0 <= d < demands@.len() ==> commodities@.contains((#[trigger] flows[d]).kind)
                    && names.contains(flows[d].start) && names.contains(flows[d].end),
            nodes@.len() * commodities@.len() <= usize::MAX,
            total == nodes@.len() * commodities@.len(),
            out@.len() == total,
            forall|row: int|
                0 <= row < total ==> (#[trigger] out@[row])@ == gather(d as int, parts(row)),
    {
        let demand = &demands[d];
        assert(demand@ == flows[d as int]);
        assert(commodities@.contains(flows[d as int].kind));
        let k: usize = match find_id(commodities, demand.kind) {
            Some(k) => k,
            None => 0,
        };
        let src: usize = match position(nodes, demand.start.as_str()) {
            Some(p) => p,
            None => 0,
        };
        let dst: usize = match position(nodes, demand.end.as_str()) {
            Some(p) => p,
            None => 0,
        };
        proof {
            index_found(commodities@, demand.kind, k as int);
            flat_index(k as int, src as int, commodities@.len() as int, nodes@.len() as int);
            flat_index(k as int, dst as int, commodities@.len() as int, nodes@.len() as int);
            assert(commodities@.len() * nodes@.len() == nodes@.len() * commodities@.len())
                by (nonlinear_arith);
        }
        let out_row: usize = k * nodes.len() + src;
        let in_row: usize = k * nodes.len() + dst;
        let ghost before = out@;
        out[out_row].push(Term { flow: d, starts: true });
        let ghost middle = out@;
        out[in_row].push(Term { flow: d, starts: false });
        proof {
            assert forall|row: int| 0 <= row < total implies (#[trigger] out@[row])@ == gather(
                d + 1,
                parts(row),
            ) by {
                assert(before[row]@ == gather(d as int, parts(row)));
                assert(parts(row)(d as int) == balance_part(
                    flows,
                    names,
                    commodities@,
                    row,
                    d as int,
                ));
                assert(out@[row]@ =~= before[row]@ + balance_part(
                    flows,
                    names,
                    commodities@,
                    row,
                    d as int,
                ));
            }
        }
    }
    proof {
        let all = Seq::new(
            (nodes@.len() * commodities@.len()) as nat,
            |row: int| balance(flows, names, commodities@, row),
        );
        assert forall|row: int| 0 <= row < total implies #[trigger] inner(out@)[row]
            == all[row] by {
            assert(out@[row]@ == gather(flows.len() as int, parts(row)));
            gather_same(
                flows.len() as int,
                parts(row),
                |d: int| balance_part(flows, names, commodities@, row, d),
            );
        }
        assert(inner(out@) =~= all);
    }
    out
}

/// The cost of a unit of flow in a column: the latency of an edge times the
/// average priority of a commodity.
#[derive(Clone, Copy, Debug, PartialEq, Eq, Structural)]
pub struct Toll {
    pub link: usize,
    pub commodity: usize,
}

/// The costs of all columns: the edges once for each commodity, then nothing for
/// the trunks.
pub open spec fn tolls(n_links: int, n_commodities: int, n_free: int) -> Seq<Option<Toll>> {
    gather(
        n_commodities,
        |k: int|
            Seq::new(
                n_links as nat,
                |i: int| Some(Toll { link: i as usize, commodity: k as usize }),
            ),
    ) + Seq::new(n_free as nat, |i: int| None)
}

/// Lists the costs of the kept columns.
fn build_objective_coefficients(
    n_links: usize,
    n_commodities: usize,
    n_free: usize,
    keep: &[usize],
) -> (r: Vec<Option<Toll>>)
    ensures
        r@ == kept(tolls(n_links as int, n_commodities as int, n_free as int), keep@),
{
    let ghost f = |k: int|
        Seq::new(
            n_links as nat,
            |i: int| Some(Toll { link: i as usize, commodity: k as usize }),
        );
    let mut all: Vec<Option<Toll>> = Vec::new();
    assert(all@ =~= gather(0, f));
    for k in 0..n_commodities
        invariant
            f == (|k: int|
                Seq::new(
                    n_links as nat,
                    |i: int| Some(Toll { link: i as usize, commodity: k as usize }),
                )),
            all@ == gather(k as int, f),
    {
        let ghost before = all@;
        let ghost piece = f(k as int);
        assert(before =~= before + piece.take(0));
        for i in 0..n_links
            invariant
                piece == Seq::new(
                    n_links as nat,
                    |i: int| Some(Toll { link: i as usize, commodity: k }),
                ),
                all@ == before + piece.take(i as int),
        {
            all.push(Some(Toll { link: i, commodity: k }));
            assert(all@ =~= before + piece.take(i + 1));
        }
        assert(piece.take(n_links as int) =~= piece);
    }
    let ghost base = all@;
    for i in 0..n_free
        invariant
            all@ == base + Seq::new(i as nat, |i: int| None::<Toll>),
    {
        all.push(None);
        assert(all@ =~= base + Seq::new((i + 1) as nat, |i: int| None::<Toll>));
    }
    let ghost whole = tolls(n_links as int, n_commodities as int, n_free as int);
    assert(all@ =~= whole);
    let ghost h = |q: int|
        if keep@[q] < whole.len() {
            seq![whole[keep@[q] as int]]
        } else {
            Seq::empty()
        };
    let mut out: Vec<Option<Toll>> = Vec::new();
    assert(out@ =~= gather(0, h));
    for q in 0..keep.len()
        invariant
            whole == all@,
            h == (|q: int|
                if keep@[q] < whole.len() {
                    seq![whole[keep@[q] as int]]
                } else {
                    Seq::empty()
                }),
            out@ == gather(q as int, h),
    {
        let ghost before = out@;
        let at: usize = keep[q];
        if at < all.len() {
            out.push(all[at]);
        }
        assert(out@ =~= before + h(q as int));
    }
    out
}

/// The commodities: the kinds of the flows, each once, in order.
pub open spec fn commodities_of(flows: Seq<FlowRow>) -> Seq<u32> {
    sorted_ids(kinds_of(flows))
}

/// The types that multicast flows were given with.
pub open spec fn multicast_types(flows: Seq<FlowRow>) -> Seq<u32> {
    gather(
        flows.len() as int,
        |d: int|
            if flows[d].multicast {
                seq![flows[d].original]
            } else {
                Seq::empty()
            },
    )
}

/// The multicast groups: the types of multicast flows, each once, in order.
pub open spec fn groups_of(flows: Seq<FlowRow>) -> Seq<u32> {
    sorted_ids(multicast_types(flows))
}

/// Whether a commodity is multicast: its last flow counts.
pub open spec fn is_multicast(flows: Seq<FlowRow>, kind: u32) -> bool
    decreases flows.len(),
{
    if flows.len() == 0 {
        false
    } else if flows.last().kind == kind {
        flows.last().multicast
    } else {
        is_multicast(flows.drop_last(), kind)
    }
}

/// Which commodities are multicast.
pub open spec fn flags_of(flows: Seq<FlowRow>) -> Seq<bool> {
    Seq::new(commodities_of(flows).len(), |k: int| is_multicast(flows, commodities_of(flows)[k]))
}

/// Whether a commodity may take the edge.
pub open spec fn is_open_to(edge: EdgeRow, kind: u32) -> bool {
    edge.link_type == kind || edge.link_type == 0
}

/// The columns that are kept: for each commodity the edges open to it.
pub open spec fn open_columns(edges: Seq<EdgeRow>, commodities: Seq<u32>) -> Seq<usize> {
    gather(
        commodities.len() as int,
        |k: int|
            gather(
                edges.len() as int,
                |i: int|
                    if is_open_to(edges[i], commodities[k]) {
                        seq![(i + k * edges.len()) as usize]
                    } else {
                        Seq::empty()
                    },
            ),
    )
}

/// How many columns carry flows.
pub open spec fn flow_columns(edges: Seq<EdgeRow>, flows: Seq<FlowRow>) -> int {
    commodities_of(flows).len() * edges.len() as int
}

/// How many columns stand for what trunks carry for multicast groups.
pub open spec fn trunk_columns(edges: Seq<EdgeRow>, flows: Seq<FlowRow>) -> int {
    groups_of(flows).len() * trunks(edges).len() as int
}

/// The columns that are kept, those of the trunks behind the others.
pub open spec fn keep_list(edges: Seq<EdgeRow>, flows: Seq<FlowRow>) -> Seq<usize> {
    open_columns(edges, commodities_of(flows)) + Seq::new(
        trunk_columns(edges, flows) as nat,
        |j: int| (flow_columns(edges, flows) + j) as usize,
    )
}

/// How many rows tie multicast flows to trunks.
pub open spec fn tie_rows(edges: Seq<EdgeRow>, flows: Seq<FlowRow>) -> int {
    heard_before(flows, flows.len() as int) * trunks(edges).len() as int
}

/// How many rows limit bandwidth: one for each group, none where nothing flows or no
/// edge is private.
pub open spec fn band_rows(edges: Seq<EdgeRow>, flows: Seq<FlowRow>) -> int {
    if commodities_of(flows).len() == 0 || private_count(edges) == 0 {
        0
    } else {
        max_shared(edges)
    }
}

/// The columns of the equalities, before some are left out: the balance of every
/// node for every commodity, and nothing for the trunks.
pub open spec fn equality_cols(edges: Seq<EdgeRow>, flows: Seq<FlowRow>) -> Seq<
    Seq<(usize, i32)>,
> {
    let nodes = node_names(edges, flows);
    diagonal(
        single_cols(edges, nodes),
        nodes.len() as int,
        commodities_of(flows).len() as int,
    ) + Seq::new(trunk_columns(edges, flows) as nat, |j: int| Seq::empty())
}

/// The columns of the inequalities, before some are left out: the bandwidth of the
/// groups, and below it the ties of multicast flows to trunks.
pub open spec fn inequality_cols(edges: Seq<EdgeRow>, flows: Seq<FlowRow>) -> Seq<
    Seq<(usize, Share)>,
> {
    let band = bandwidth_cols(edges, flags_of(flows), groups_of(flows).len() as int);
    let tied = ties(
        flows,
        commodities_of(flows),
        groups_of(flows),
        trunks(edges),
        edges.len() as int,
    );
    Seq::new(
        (flow_columns(edges, flows) + trunk_columns(edges, flows)) as nat,
        |c: int| as_shares(band[c]) + shifted(placed(tied, c), band_rows(edges, flows)),
    )
}

/// How many flows are multicast.
pub open spec fn multicast_count(flows: Seq<FlowRow>) -> nat {
    count_where(flows.len() as int, |d: int| flows[d].multicast)
}

/// The operators of the rows of the inequalities.
pub open spec fn row_operators(edges: Seq<EdgeRow>, flows: Seq<FlowRow>, far: bool) -> Seq<
    Seq<char>,
> {
    let openers = group_openers(edges.take(private_count(edges) as int));
    openers.map_values(|e: EdgeRow| operator_at(e, far)) + if tie_rows(edges, flows) > 0 {
        gather(multicast_count(flows) as int, |m: int| operators_at(edges, trunks(edges), far))
    } else {
        Seq::empty()
    }
}

/// Everything that a linear program is made of.
#[derive(Debug)]
pub struct LpBuilderOutput {
    /// The commodities, in the order of their blocks.
    pub commodities: Vec<u32>,
    /// The equalities: what each node balances.
    pub a_eq: CscMatrix<i32>,
    /// The inequalities: bandwidth, and multicast on trunks.
    pub a_ub: CscMatrix<Share>,
    /// The right sides of the equalities.
    pub b_eq: Vec<Vec<Term>>,
    /// The right sides of the inequalities.
    pub b_ub: Vec<Real>,
    /// The costs of the columns; nothing where there is none.
    pub cost: Vec<Option<Toll>>,
    pub row_op1: Vec<String>,
    pub row_op2: Vec<String>,
    pub col_op1: Vec<String>,
    pub col_op2: Vec<String>,
}

impl LpBuilderOutput {
    /// The linear program is that of the edges and flows.
    pub open spec fn describes(self, edges: Seq<EdgeRow>, flows: Seq<FlowRow>) -> bool {
        let nodes = node_names(edges, flows);
        let commodities = commodities_of(flows);
        let keep = keep_list(edges, flows);
        let openers = group_openers(edges.take(private_count(edges) as int));
        let n_groups = groups_of(flows).len() as int;
        &&& self.commodities@ == commodities
        &&& self.a_eq.wf() && self.a_eq.rows_fit()
        &&& self.a_eq.m == nodes.len() * commodities.len()
        &&& self.a_eq.n == keep.len()
        &&& self.a_eq.cols() == picked(equality_cols(edges, flows), keep)
        &&& self.a_ub.wf() && self.a_ub.rows_fit()
        &&& self.a_ub.m == band_rows(edges, flows) + tie_rows(edges, flows)
        &&& self.a_ub.n == keep.len()
        &&& self.a_ub.cols() == picked(inequality_cols(edges, flows), keep)
        &&& inner(self.b_eq@) == Seq::new(
            (nodes.len() * commodities.len()) as nat,
            |row: int| balance(flows, nodes, commodities, row),
        )
        &&& self.b_ub@ == openers.map_values(|e: EdgeRow| e.bandwidth) + Seq::new(
            tie_rows(edges, flows) as nat,
            |k: int| Real { bits: 0 },
        )
        &&& self.cost@ == kept(
            tolls(
                edges.len() as int,
                commodities.len() as int,
                trunk_columns(edges, flows),
            ),
            keep,
        )
        &&& views(self.row_op1@) == row_operators(edges, flows, false)
        &&& views(self.row_op2@) == row_operators(edges, flows, true)
        &&& views(self.col_op1@) == kept(
            column_operators(edges, commodities.len() as int, trunks(edges), n_groups, false),
            keep,
        )
        &&& views(self.col_op2@) == kept(
            column_operators(edges, commodities.len() as int, trunks(edges), n_groups, true),
            keep,
        )
    }
}

/// Every table of the linear program can be indexed.
pub open spec fn sizes_fit(edges: Seq<EdgeRow>, flows: Seq<FlowRow>) -> bool {
    &&& flow_columns(edges, flows) + trunk_columns(edges, flows) <= usize::MAX
    &&& node_names(edges, flows).len() * commodities_of(flows).len() <= usize::MAX
    &&& max_shared(edges) + tie_rows(edges, flows) <= usize::MAX
}

/// The edges and flows that make up a linear program.
#[derive(Debug)]
pub struct LpBuilderInput<'a> {
    pub links: &'a [ConsolidatedLink],
    pub demands: &'a [ConsolidatedDemand],
}

/// As many members are gathered as the pieces have.
pub proof fn gather_len<T>(n: int, f: spec_fn(int) -> Seq<T>, size: int)
    requires
        n >= 0,
        forall|i: int| 0 <= i < n ==> (#[trigger] f(i)).len() == size,
    ensures
        gather(n, f).len() == n * size,
    decreases n,
{
    if n > 0 {
        gather_len(n - 1, f, size);
        assert(f(n - 1).len() == size);
        assert(n * size == (n - 1) * size + size) by (nonlinear_arith);
    } else {
        assert(n * size == 0) by (nonlinear_arith)
            requires
                n == 0,
        ;
    }
}

/// Finds which commodities are multicast.
fn find_flags(demands: &[ConsolidatedDemand], commodities: &[u32]) -> (r: Vec<bool>)
    ensures
        r@ == Seq::new(commodities@.len(), |k: int| is_multicast(views(demands@), commodities@[k])),
{
    let ghost flows = views(demands@);
    let mut out: Vec<bool> = Vec::new();
    for k in 0..commodities.len()
        invariant
            flows == views(demands@),
            out@ == Seq::new(k as nat, |k: int| is_multicast(flows, commodities@[k])),
    {
        let kind: u32 = commodities[k];
        let mut flag = false;
        let mut d: usize = demands.len();
        assert(flows.take(d as int) =~= flows);
        while d > 0 && demands[d - 1].kind != kind
            invariant
                d <= demands@.len(),
                flows == views(demands@),
                is_multicast(flows, kind) == is_multicast(flows.take(d as int), kind),
            decreases d,
        {
            assert(flows.take(d as int).last() == demands@[d - 1]@);
            assert(flows.take(d as int).drop_last() =~= flows.take(d - 1));
            d = d - 1;
        }
        if d > 0 {
            assert(flows.take(d as int).last() == demands@[d - 1]@);
            flag = demands[d - 1].multicast;
        }
        out.push(flag);
        assert(out@ =~= Seq::new((k + 1) as nat, |k: int| is_multicast(flows, commodities@[k])));
    }
    out
}

/// Lists the kinds of the flows.
fn find_commodities(demands: &[ConsolidatedDemand]) -> (r: Vec<u32>)
    ensures
        r@ == commodities_of(views(demands@)),
        ordered(r@, below()),
        forall|d: int| 0 <= d < demands@.len() ==> r@.contains((#[trigger] views(demands@)[d]).kind),
        demands@.len() == 0 <==> r@.len() == 0,
{
    let ghost flows = views(demands@);
    let mut kinds: Vec<u32> = Vec::new();
    for d in 0..demands.len()
        invariant
            flows == views(demands@),
            kinds@ == kinds_of(flows).take(d as int),
    {
        kinds.push(demands[d].kind);
        assert(kinds@ =~= kinds_of(flows).take(d + 1));
    }
    assert(kinds@ =~= kinds_of(flows));
    let r = sort_ids(kinds.as_slice());
    proof {
        assert forall|d: int| 0 <= d < demands@.len() implies r@.contains(
            (#[trigger] flows[d]).kind,
        ) by {
            assert(kinds@[d] == flows[d].kind);
            assert(kinds@.contains(flows[d].kind));
        }
        if demands@.len() > 0 {
            assert(r@.contains(flows[0].kind));
        }
        if r@.len() > 0 {
            assert(r@.contains(r@[0]));
            assert(kinds@.contains(r@[0]));
        }
    }
    r
}

/// Lists the multicast groups.
fn find_groups(demands: &[ConsolidatedDemand]) -> (r: Vec<u32>)
    ensures
        r@ == groups_of(views(demands@)),
        ordered(r@, below()),
        forall|d: int|
            0 <= d < demands@.len() && (#[trigger] views(demands@)[d]).multicast ==> r@.contains(
                views(demands@)[d].original,
            ),
        demands@.len() == 0 ==> r@.len() == 0,
{
    let ghost flows = views(demands@);
    let ghost f = |d: int|
        if flows[d].multicast {
            seq![flows[d].original]
        } else {
            Seq::empty()
        };
    let mut types: Vec<u32> = Vec::new();
    assert(types@ =~= gather(0, f));
    for d in 0..demands.len()
        invariant
            flows == views(demands@),
            f == (|d: int|
                if flows[d].multicast {
                    seq![flows[d].original]
                } else {
                    Seq::empty()
                }),
            types@ == gather(d as int, f),
    {
        assert(flows[d as int] == demands@[d as int]@);
        let ghost before = types@;
        if demands[d].multicast {
            types.push(demands[d].original);
        }
        assert(types@ =~= before + f(d as int));
    }
    let r = sort_ids(types.as_slice());
    proof {
        assert forall|d: int|
            0 <= d < demands@.len() && (#[trigger] flows[d]).multicast implies r@.contains(
            flows[d].original,
        ) by {
            assert(f(d) == seq![flows[d].original]);
            gather_holds(flows.len() as int, f, d, 0);
            assert(types@.contains(flows[d].original));
        }
    }
    r
}

/// Counts the multicast flows.
fn count_multicast(demands: &[ConsolidatedDemand]) -> (r: usize)
    ensures
        r == multicast_count(views(demands@)),
{
    let ghost flows = views(demands@);
    let ghost p = |d: int| flows[d].multicast;
    let mut n: usize = 0;
    for d in 0..demands.len()
        invariant
            flows == views(demands@),
            p == (|d: int| flows[d].multicast),
            n == count_where(d as int, p),
            n <= d,
    {
        assert(flows[d as int] == demands@[d as int]@);
        if demands[d].multicast {
            n = n + 1;
        }
    }
    n
}

/// Lists the columns that are kept.
fn find_keep(
    links: &[ConsolidatedLink],
    commodities: &[u32],
    n_free: usize,
) -> (r: Vec<usize>)
    requires
        commodities@.len() * links@.len() + n_free <= usize::MAX,
    ensures
        r@ == open_columns(views(links@), commodities@) + Seq::new(
            n_free as nat,
            |j: int| (commodities@.len() * links@.len() + j) as usize,
        ),
        columns_exist(r@, commodities@.len() * links@.len() + n_free),
{
    let ghost edges = views(links@);
    let ghost n = links@.len() as int;
    let ghost total = commodities@.len() * n;
    let ghost f = |k: int|
        gather(
            n,
            |i: int|
                if is_open_to(edges[i], commodities@[k]) {
                    seq![(i + k * n) as usize]
                } else {
                    Seq::empty()
                },
        );
    let mut keep: Vec<usize> = Vec::new();
    assert(keep@ =~= gather(0, f));
    for k in 0..commodities.len()
        invariant
            edges == views(links@),
            n == links@.len(),
            total == commodities@.len() * n,
            total + n_free <= usize::MAX,
            f == (|k: int|
                gather(
                    n,
                    |i: int|
                        if is_open_to(edges[i], commodities@[k]) {
                            seq![(i + k * n) as usize]
                        } else {
                            Seq::empty()
                        },
                )),
            keep@ == gather(k as int, f),
            forall|q: int| 0 <= q < keep@.len() ==> #[trigger] keep@[q] < total,
    {
        let kind: u32 = commodities[k];
        let ghost before = keep@;
        let ghost g = |i: int|
            if is_open_to(edges[i], kind) {
                seq![(i + k * n) as usize]
            } else {
                Seq::empty()
            };
        assert(before =~= before + gather(0, g));
        for i in 0..links.len()
            invariant
                edges == views(links@),
                n == links@.len(),
                k < commodities@.len(),
                total == commodities@.len() * n,
                total + n_free <= usize::MAX,
                g == (|i: int|
                    if is_open_to(edges[i], kind) {
                        seq![(i + k * n) as usize]
                    } else {
                        Seq::empty()
                    }),
                keep@ == before + gather(i as int, g),
                forall|q: int| 0 <= q < keep@.len() ==> #[trigger] keep@[q] < total,
        {
            let ghost so_far = keep@;
            assert(edges[i as int] == links@[i as int]@);
            proof {
                flat_index(k as int, i as int, commodities@.len() as int, n);
            }
            if links[i].link_type == kind || links[i].link_type == 0 {
                keep.push(i + k * links.len());
            }
            assert(keep@ =~= so_far + g(i as int));
            assert(keep@ =~= before + gather(i + 1, g));
        }
        assert(f(k as int) == gather(n, g));
    }
    let ghost base = keep@;
    assert(base == open_columns(edges, commodities@));
    let first: usize = commodities.len() * links.len();
    for j in 0..n_free
        invariant
            first == total,
            total + n_free <= usize::MAX,
            keep@ == base + Seq::new(j as nat, |j: int| (total + j) as usize),
            forall|q: int| 0 <= q < keep@.len() ==> #[trigger] keep@[q] < total + n_free,
    {
        keep.push(first + j);
        assert(keep@ =~= base + Seq::new((j + 1) as nat, |j: int| (total + j) as usize));
    }
    assert(keep@ =~= open_columns(edges, commodities@) + Seq::new(
        n_free as nat,
        |j: int| (commodities@.len() * links@.len() + j) as usize,
    ));
    keep
}

/// Keeps the columns named.
fn filter_columns<T: Copy>(matrix: &CscMatrix<T>, keep: &[usize]) -> (r: Result<
    CscMatrix<T>,
    ShapleyError,
>)
    requires
        matrix.wf(),
    ensures
        r is Ok <==> columns_exist(keep@, matrix.n as int),
        r matches Ok(a) ==> {
            &&& a.wf()
            &&& a.m == matrix.m
            &&& a.n == keep@.len()
            &&& a.cols() == picked(matrix.cols(), keep@)
            &&& matrix.rows_fit() ==> a.rows_fit()
        },
        r matches Err(e) ==> exists|i: int| #[trigger]
            first_beyond(keep@, matrix.n as int, i) && e@ == column_fault(keep@[i] as int),
{
    pick_columns(matrix, keep)
}

/// A matrix without entries.
fn empty_matrix<T: Copy>(m: usize, n: usize) -> (r: CscMatrix<T>)
    ensures
        r.wf(),
        r.rows_fit(),
        r.m == m,
        r.n == n,
        r.cols() == Seq::new(n as nat, |j: int| Seq::<(usize, T)>::empty()),
{
    let mut out: ColumnWriter<T> = ColumnWriter::start();
    for j in 0..n
        invariant
            out.wf(),
            out.open_col() == Seq::<(usize, T)>::empty(),
            out.closed_cols() == Seq::new(j as nat, |j: int| Seq::<(usize, T)>::empty()),
    {
        out.close();
        assert(out.closed_cols() =~= Seq::new((j + 1) as nat, |j: int| Seq::<(usize, T)>::empty()));
    }
    let r = out.finish(m);
    assert(r.cols() =~= Seq::new(n as nat, |j: int| Seq::<(usize, T)>::empty()));
    r
}

/// The columns of bandwidth constraints are as many as there are columns.
proof fn bandwidth_len(edges: Seq<EdgeRow>, flags: Seq<bool>, n_groups: int)
    requires
        n_groups >= 0,
    ensures
        bandwidth_cols(edges, flags, n_groups).len() == flags.len() * edges.len() + n_groups
            * trunks(edges).len(),
{
    let all = j1_cols(edges, private_count(edges) as int, max_shared(edges));
    let plain = j2_cols(edges, plains(edges), max_shared(edges));
    gather_len(
        flags.len() as int,
        |k: int|
            if flags[k] {
                plain
            } else {
                all
            },
        edges.len() as int,
    );
    gather_len(n_groups, |g: int| picked(all, trunks(edges)), trunks(edges).len() as int);
}

impl<'a> LpBuilderInput<'a> {
    /// The edges and flows of a linear program.
    pub fn new(links: &'a [ConsolidatedLink], demands: &'a [ConsolidatedDemand]) -> (r: Self)
        ensures
            r.links == links,
            r.demands == demands,
    {
        LpBuilderInput { links, demands }
    }

    /// Whether the linear program can be built: every table can be indexed.
    pub fn is_ready(&self) -> (r: bool)
        ensures
            r == sizes_fit(views(self.links@), views(self.demands@)),
    {
        let ghost edges = views(self.links@);
        let ghost flows = views(self.demands@);
        let (trunk, _plain) = split_edges(self.links);
        let nodes = find_nodes(self.links, self.demands);
        let commodities = find_commodities(self.demands);
        let groups = find_groups(self.demands);
        let mut heard: usize = 0;
        let ghost p = |i: int| is_heard(flows[i]);
        for d in 0..self.demands.len()
            invariant
                flows == views(self.demands@),
                p == (|i: int| is_heard(flows[i])),
                heard == count_where(d as int, p),
                heard <= d,
        {
            assert(flows[d as int] == self.demands@[d as int]@);
            if self.demands[d].multicast && self.demands[d].receivers > 0 {
                heard = heard + 1;
            }
        }
        let top: usize = find_max_shared(self.links) as usize;
        let ghost (n_c, n_g, n_t) = (
            commodities@.len() as int,
            groups@.len() as int,
            trunk@.len() as int,
        );
        let flow_cols = commodities.len().checked_mul(self.links.len());
        let trunk_cols = groups.len().checked_mul(trunk.len());
        let balance_rows = nodes.len().checked_mul(commodities.len());
        let tied_rows = heard.checked_mul(trunk.len());
        proof {
            assert(n_c * edges.len() >= 0 && n_g * n_t >= 0 && heard * n_t >= 0)
                by (nonlinear_arith)
                requires
                    n_c >= 0,
                    n_g >= 0,
                    n_t >= 0,
                    heard >= 0,
            ;
        }
        match (flow_cols, trunk_cols, balance_rows, tied_rows) {
            (Some(a), Some(b), Some(_c), Some(d)) => a.checked_add(b).is_some() && top.checked_add(
                d,
            ).is_some(),
            _ => false,
        }
    }

    /// Builds the linear program.
    #[verifier::rlimit(40)]
    pub fn build(&self) -> (r: Result<LpBuilderOutput, ShapleyError>)
        requires
            sizes_fit(views(self.links@), views(self.demands@)),
        ensures
            r matches Ok(out) && out.describes(views(self.links@), views(self.demands@)),
    {
        let links = self.links;
        let demands = self.demands;
        let ghost edges = views(links@);
        let ghost flows = views(demands@);
        let n_private: usize = count_private(links);
        let (mcast_eligible, mcast_ineligible) = split_edges(links);
        let n_links: usize = links.len();
        let nodes = find_nodes(links, demands);
        let commodities = find_commodities(demands);
        let multicast_commodities = find_groups(demands);
        let flags = find_flags(demands, commodities.as_slice());
        let ghost names = views(nodes@);
        let ghost (n_c, n_g, n_t) = (
            commodities@.len() as int,
            multicast_commodities@.len() as int,
            mcast_eligible@.len() as int,
        );
        proof {
            assert(flags@ =~= flags_of(flows));
            assert(names.len() == nodes@.len());
            assert(n_c * n_links >= 0 && n_g * n_t >= 0) by (nonlinear_arith)
                requires
                    n_c >= 0,
                    n_g >= 0,
                    n_t >= 0,
                    n_links >= 0,
            ;
            assert(heard_before(flows, flows.len() as int) * n_t >= 0) by (nonlinear_arith)
                requires
                    n_t >= 0,
            ;
        }
        let a_single = match build_single_commodity_matrix(links, nodes.as_slice()) {
            Ok(a) => a,
            Err(e) => {
                return Err(e);
            },
        };
        let a_eq = block_diagonal_csc(&a_single, commodities.len());
        let (band, mut b_ub, mut row_op1, mut row_op2) = match build_bandwidth_constraints(
            links,
            n_private,
            flags.as_slice(),
            mcast_eligible.as_slice(),
            mcast_ineligible.as_slice(),
            multicast_commodities.len(),
        ) {
            Ok(parts) => parts,
            Err(e) => {
                return Err(e);
            },
        };
        let n_flow: usize = commodities.len() * n_links;
        let n_free: usize = multicast_commodities.len() * mcast_eligible.len();
        let total_cols: usize = n_flow + n_free;
        proof {
            trunks_are_edges(edges);
            bandwidth_len(edges, flags@, n_g);
        }
        let within = build_within_group_constraints(
            demands,
            commodities.as_slice(),
            multicast_commodities.as_slice(),
            mcast_eligible.as_slice(),
            n_links,
            total_cols,
        );
        let ghost tied = ties(flows, commodities@, multicast_commodities@, mcast_eligible@, n_links as int);
        let ghost band_cols = band.cols();
        let shares = to_shares(band);
        let mut pair: Vec<&CscMatrix<Share>> = Vec::new();
        pair.push(&shares);
        pair.push(&within);
        proof {
            reveal_with_fuel(height, 3);
            assert(pair@.drop_last().drop_last() =~= Seq::<&CscMatrix<Share>>::empty());
            assert(pair@.drop_last().last() == &shares);
            assert(height(pair@) == shares.m + within.m);
        }
        let a_ub = match vstack_matrices(pair.as_slice()) {
            Ok(a) => a,
            Err(e) => {
                return Err(e);
            },
        };
        proof {
            let whole = inequality_cols(edges, flows);
            assert forall|c: int| 0 <= c < a_ub.n implies #[trigger] a_ub.cols()[c]
                == whole[c] by {
                reveal_with_fuel(stacked, 3);
                assert(stacked(pair@, c) =~= shifted(shares.cols()[c], 0) + shifted(
                    within.cols()[c],
                    shares.m as int,
                ));
                shifted_zero(shares.cols()[c]);
                assert(shares.cols()[c] == as_shares(band_cols[c]));
            }
            assert(a_ub.cols() =~= whole);
        }
        let ghost first_limits = b_ub@;
        assert(b_ub@ =~= first_limits + Seq::new(0, |k: int| Real { bits: 0 }));
        for k in 0..within.m
            invariant
                b_ub@ == first_limits + Seq::new(k as nat, |k: int| Real { bits: 0 }),
        {
            b_ub.push(Real { bits: 0 });
            assert(b_ub@ =~= first_limits + Seq::new((k + 1) as nat, |k: int| Real { bits: 0 }));
        }
        let ghost (near, far) = (views(row_op1@), views(row_op2@));
        let ghost one = |m: int| operators_at(edges, trunks(edges), false);
        let ghost two = |m: int| operators_at(edges, trunks(edges), true);
        if within.m > 0 {
            let n_multicast: usize = count_multicast(demands);
            assert(near =~= near + gather(0, one));
            assert(far =~= far + gather(0, two));
            for m in 0..n_multicast
                invariant
                    edges == views(links@),
                    mcast_eligible@ == trunks(edges),
                    one == (|m: int| operators_at(edges, trunks(edges), false)),
                    two == (|m: int| operators_at(edges, trunks(edges), true)),
                    views(row_op1@) == near + gather(m as int, one),
                    views(row_op2@) == far + gather(m as int, two),
            {
                append_operators(&mut row_op1, links, mcast_eligible.as_slice(), false);
                append_operators(&mut row_op2, links, mcast_eligible.as_slice(), true);
                assert(views(row_op1@) =~= near + gather(m + 1, one));
                assert(views(row_op2@) =~= far + gather(m + 1, two));
            }
        }
        proof {
            let openers = group_openers(edges.take(private_count(edges) as int));
            assert(openers.map_values(|e: EdgeRow| operator_at(e, false)) =~= near);
            assert(openers.map_values(|e: EdgeRow| operator_at(e, true)) =~= far);
            assert(views(row_op1@) =~= row_operators(edges, flows, false));
            assert(views(row_op2@) =~= row_operators(edges, flows, true));
        }
        let padding: CscMatrix<i32> = empty_matrix(a_eq.m, n_free);
        let mut sides: Vec<&CscMatrix<i32>> = Vec::new();
        sides.push(&a_eq);
        sides.push(&padding);
        let ghost parts = |k: int| sides@[k].cols();
        proof {
            side_gathered(sides@, parts);
            reveal_with_fuel(gather, 3);
            assert(gather(2, parts) =~= a_eq.cols() + padding.cols());
        }
        let a_eq_padded = match hstack_matrices(sides.as_slice()) {
            Ok(a) => a,
            Err(e) => {
                return Err(e);
            },
        };
        proof {
            assert(a_eq_padded.cols() =~= equality_cols(edges, flows));
            assert(a_single.n * n_c == n_c * n_links) by (nonlinear_arith)
                requires
                    a_single.n == n_links,
            ;
        }
        let keep = find_keep(links, commodities.as_slice(), n_free);
        assert(keep@ =~= keep_list(edges, flows));
        let a_eq_final = match filter_columns(&a_eq_padded, keep.as_slice()) {
            Ok(a) => a,
            Err(e) => {
                return Err(e);
            },
        };
        let a_ub_final = match filter_columns(&a_ub, keep.as_slice()) {
            Ok(a) => a,
            Err(e) => {
                return Err(e);
            },
        };
        let col_op1 = build_column_operators1(
            links,
            commodities.as_slice(),
            multicast_commodities.as_slice(),
            mcast_eligible.as_slice(),
            keep.as_slice(),
            multicast_commodities.len(),
        );
        let col_op2 = build_column_operators2(
            links,
            commodities.as_slice(),
            multicast_commodities.as_slice(),
            mcast_eligible.as_slice(),
            keep.as_slice(),
            multicast_commodities.len(),
        );
        let b_eq = build_flow_requirements(demands, commodities.as_slice(), nodes.as_slice());
        let cost = build_objective_coefficients(n_links, commodities.len(), n_free, keep.as_slice());
        Ok(
            LpBuilderOutput {
                commodities,
                a_eq: a_eq_final,
                a_ub: a_ub_final,
                b_eq,
                b_ub,
                cost,
                row_op1,
                row_op2,
                col_op1,
                col_op2,
            },
        )
    }
}

/// In pieces of one size, each member is found by its piece and place.
pub proof fn gather_at<T>(n: int, f: spec_fn(int) -> Seq<T>, size: int, k: int, j: int)
    requires
        0 <= k < n,
        0 <= j < size,
        forall|i: int| 0 <= i < n ==> (#[trigger] f(i)).len() == size,
    ensures
        k * size + j < gather(n, f).len(),
        gather(n, f)[k * size + j] == f(k)[j],
{
    gather_len(k, f, size);
    assert(f(k).len() == size);
    gather_holds(n, f, k, j);
}

/// In the equalities, an edge takes from one node and gives to another: in the
/// block of a commodity, its column has a one in the row of the node it leaves and
/// a minus one in the row of the node it reaches.
pub proof fn equality_column(edges: Seq<EdgeRow>, flows: Seq<FlowRow>, k: int, i: int)
    requires
        0 <= k < commodities_of(flows).len(),
        0 <= i < edges.len(),
    ensures
        ({
            let nodes = node_names(edges, flows);
            let col = equality_cols(edges, flows)[k * edges.len() + i];
            col == shifted(incidence(edges[i], nodes), k * nodes.len())
        }),
{
    let nodes = node_names(edges, flows);
    let cols = single_cols(edges, nodes);
    let m = nodes.len() as int;
    let f = |b: int| lowered(cols, b * m);
    gather_at(commodities_of(flows).len() as int, f, edges.len() as int, k, i);
}

/// The sum of the entries of a column.
pub open spec fn column_total(col: Seq<(usize, i32)>) -> int
    decreases col.len(),
{
    if col.len() == 0 {
        0
    } else {
        column_total(col.drop_last()) + col.last().1
    }
}

/// What leaves one node arrives at another: every column of the equalities adds up
/// to nothing.
pub proof fn flow_is_conserved(edges: Seq<EdgeRow>, flows: Seq<FlowRow>, c: int)
    requires
        0 <= c < equality_cols(edges, flows).len(),
    ensures
        column_total(equality_cols(edges, flows)[c]) == 0,
{
    let nodes = node_names(edges, flows);
    let cols = single_cols(edges, nodes);
    let m = nodes.len() as int;
    let n = commodities_of(flows).len() as int;
    let f = |b: int| lowered(cols, b * m);
    let all = equality_cols(edges, flows);
    if c < gather(n, f).len() {
        let (b, j) = gather_member(n, f, c);
        let col = all[c];
        assert(col == shifted(incidence(edges[j], nodes), b * m));
        reveal_with_fuel(column_total, 3);
        assert(col.len() == 2);
        assert(col.drop_last().len() == 1);
        assert(col.drop_last().drop_last().len() == 0);
        assert(col.last() == col[1] && col.drop_last().last() == col[0]);
    } else {
        assert(all[c].len() == 0);
    }
}

/// A private edge counts once against its bandwidth group for every commodity that
/// is not multicast; for a multicast one only where it is no trunk.
pub proof fn bandwidth_column(edges: Seq<EdgeRow>, flows: Seq<FlowRow>, k: int, i: int)
    requires
        0 <= k < commodities_of(flows).len(),
        0 <= i < edges.len(),
        edges.len() <= usize::MAX,
    ensures
        bandwidth_cols(edges, flags_of(flows), groups_of(flows).len() as int)[k * edges.len() + i]
            == group_column(
            edges[i],
            max_shared(edges),
            if is_multicast(flows, commodities_of(flows)[k]) {
                if is_plain(edges[i]) {
                    1
                } else {
                    0
                }
            } else if i < private_count(edges) {
                1
            } else {
                0
            },
        ),
{
    let flags = flags_of(flows);
    let all = j1_cols(edges, private_count(edges) as int, max_shared(edges));
    let plain = j2_cols(edges, plains(edges), max_shared(edges));
    let f = |k: int|
        if flags[k] {
            plain
        } else {
            all
        };
    gather_at(flags.len() as int, f, edges.len() as int, k, i);
    plain_once(edges, edges.len() as int, i);
}

/// What a trunk carries for a multicast group counts once against the trunk's
/// bandwidth group, however many receivers there are.
pub proof fn trunk_column(edges: Seq<EdgeRow>, flows: Seq<FlowRow>, g: int, e: int)
    requires
        0 <= g < groups_of(flows).len(),
        0 <= e < trunks(edges).len(),
        edges.len() <= usize::MAX,
    ensures
        bandwidth_cols(edges, flags_of(flows), groups_of(flows).len() as int)[flow_columns(
            edges,
            flows,
        ) + g * trunks(edges).len() + e] == group_column(
            edges[trunks(edges)[e] as int],
            max_shared(edges),
            if trunks(edges)[e] < private_count(edges) {
                1
            } else {
                0
            },
        ),
{
    let flags = flags_of(flows);
    let all = j1_cols(edges, private_count(edges) as int, max_shared(edges));
    let plain = j2_cols(edges, plains(edges), max_shared(edges));
    let f = |k: int|
        if flags[k] {
            plain
        } else {
            all
        };
    let h = |g: int| picked(all, trunks(edges));
    gather_len(flags.len() as int, f, edges.len() as int);
    gather_at(groups_of(flows).len() as int, h, trunks(edges).len() as int, g, e);
    trunks_are_edges(edges);
}

/// A list of as many kept members as are named, where all of them are there.
pub proof fn kept_len<T>(all: Seq<T>, keep: Seq<usize>)
    requires
        columns_exist(keep, all.len() as int),
    ensures
        kept(all, keep).len() == keep.len(),
        forall|q: int| 0 <= q < keep.len() ==> #[trigger] kept(all, keep)[q] == all[keep[q] as int],
{
    let f = |q: int|
        if keep[q] < all.len() {
            seq![all[keep[q] as int]]
        } else {
            Seq::empty()
        };
    crate::lists::gather_singles(keep.len() as int, f);
    assert forall|q: int| 0 <= q < keep.len() implies #[trigger] kept(all, keep)[q]
        == all[keep[q] as int] by {
        assert(f(q) == seq![all[keep[q] as int]]);
    }
}

/// Every kept column is there.
pub proof fn keep_exists(edges: Seq<EdgeRow>, flows: Seq<FlowRow>)
    requires
        sizes_fit(edges, flows),
    ensures
        columns_exist(
            keep_list(edges, flows),
            flow_columns(edges, flows) + trunk_columns(edges, flows),
        ),
{
    let commodities = commodities_of(flows);
    let n = edges.len() as int;
    let keep = keep_list(edges, flows);
    let flow_cols = flow_columns(edges, flows);
    let free = trunk_columns(edges, flows);
    assert(free >= 0) by (nonlinear_arith)
        requires
            free == groups_of(flows).len() * trunks(edges).len() as int,
    ;
    let f = |k: int|
        gather(
            n,
            |i: int|
                if is_open_to(edges[i], commodities[k]) {
                    seq![(i + k * n) as usize]
                } else {
                    Seq::empty()
                },
        );
    assert forall|q: int| 0 <= q < keep.len() implies #[trigger] keep[q] < flow_cols + free by {
        if q < gather(commodities.len() as int, f).len() {
            let (k, j) = gather_member(commodities.len() as int, f, q);
            let g = |i: int|
                if is_open_to(edges[i], commodities[k]) {
                    seq![(i + k * n) as usize]
                } else {
                    Seq::empty()
                };
            let (i, z) = gather_member(n, g, j);
            flat_index(k, i, commodities.len() as int, n);
        }
    }
}

/// The parts of a linear program fit together: as many costs and operators as
/// columns, as many balances as equalities.
pub proof fn program_fits_together(out: LpBuilderOutput, edges: Seq<EdgeRow>, flows: Seq<FlowRow>)
    requires
        out.describes(edges, flows),
        sizes_fit(edges, flows),
        edges.len() <= usize::MAX,
    ensures
        out.a_ub.n == out.a_eq.n,
        out.cost@.len() == out.a_eq.n,
        out.col_op1@.len() == out.a_eq.n,
        out.col_op2@.len() == out.a_eq.n,
        out.b_eq@.len() == out.a_eq.m,
{
    let keep = keep_list(edges, flows);
    let k = commodities_of(flows).len() as int;
    let g = groups_of(flows).len() as int;
    let t = trunks(edges).len() as int;
    keep_exists(edges, flows);
    trunks_are_edges(edges);
    assert(g * t >= 0) by (nonlinear_arith)
        requires
            g >= 0,
            t >= 0,
    ;
    let f = |k: int|
        Seq::new(
            edges.len(),
            |i: int| Some(Toll { link: i as usize, commodity: k as usize }),
        );
    gather_len(k, f, edges.len() as int);
    kept_len(tolls(edges.len() as int, k, trunk_columns(edges, flows)), keep);
    operators_len(edges, k, g, false);
    operators_len(edges, k, g, true);
    kept_len(column_operators(edges, k, trunks(edges), g, false), keep);
    kept_len(column_operators(edges, k, trunks(edges), g, true), keep);
    assert(out.col_op1@.len() == views(out.col_op1@).len());
    assert(out.col_op2@.len() == views(out.col_op2@).len());
    assert(out.b_eq@.len() == inner(out.b_eq@).len());
}

/// There are as many operators as columns.
pub proof fn operators_len(edges: Seq<EdgeRow>, n_commodities: int, n_groups: int, far: bool)
    requires
        n_commodities >= 0,
        n_groups >= 0,
        edges.len() <= usize::MAX,
    ensures
        column_operators(edges, n_commodities, trunks(edges), n_groups, far).len() == n_commodities
            * edges.len() + n_groups * trunks(edges).len(),
{
    trunks_are_edges(edges);
    trunk_operators(edges, far);
    gather_len(
        n_commodities,
        |k: int| Seq::new(edges.len(), |i: int| operator_at(edges[i], far)),
        edges.len() as int,
    );
    gather_len(
        n_groups,
        |g: int| operators_at(edges, trunks(edges), far),
        trunks(edges).len() as int,
    );
}

/// Every trunk has its operator.
pub proof fn trunk_operators(edges: Seq<EdgeRow>, far: bool)
    requires
        edges.len() <= usize::MAX,
    ensures
        operators_at(edges, trunks(edges), far).len() == trunks(edges).len(),
        forall|e: int|
            0 <= e < trunks(edges).len() ==> #[trigger] operators_at(edges, trunks(edges), far)[e]
                == operator_at(edges[trunks(edges)[e] as int], far),
{
    let places = trunks(edges);
    trunks_are_edges(edges);
    let f = |e: int|
        if places[e] < edges.len() {
            seq![operator_at(edges[places[e] as int], far)]
        } else {
            Seq::empty()
        };
    assert forall|e: int| 0 <= e < places.len() implies (#[trigger] f(e)).len() == 1 by {
        assert(places[e] < edges.len());
    }
    crate::lists::gather_singles(places.len() as int, f);
    assert forall|e: int| 0 <= e < places.len() implies #[trigger] operators_at(
        edges,
        places,
        far,
    )[e] == operator_at(edges[places[e] as int], far) by {
        assert(f(e).len() == 1);
    }
}

/// How many operators of rows there are.
pub proof fn row_operators_len(edges: Seq<EdgeRow>, flows: Seq<FlowRow>, far: bool)
    requires
        edges.len() <= usize::MAX,
    ensures
        row_operators(edges, flows, far).len() == group_openers(
            edges.take(private_count(edges) as int),
        ).len() + if tie_rows(edges, flows) > 0 {
            multicast_count(flows) * trunks(edges).len() as int
        } else {
            0
        },
{
    trunk_operators(edges, far);
    gather_len(
        multicast_count(flows) as int,
        |m: int| operators_at(edges, trunks(edges), far),
        trunks(edges).len() as int,
    );
}

} // verus!
