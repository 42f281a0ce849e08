//! Plans of device work: which tensors a layer owns and which kernels run on them, in what order.
//!
//! A layer only describes its work here. Carrying the plan out on a device takes one device
//! buffer for each tensor and one dispatch for each node.
use crate::binary32::Real;
use vstd::prelude::*;

verus! {

/// Place of a tensor among the [`Tensors`] of a plan.
#[derive(Clone, Copy, Debug, PartialEq, Eq, Structural)]
pub struct TensorId {
    pub index: usize,
}

/// Parameters of the kernels that work on one head's attention scores.
#[derive(Clone, Copy, Debug, PartialEq, Eq, Structural)]
pub struct AttnScaleMeta {
    pub seq_len: u32,
    pub scale: Real,
}

/// Parameters of the kernels that move one head's columns in and out of a wide buffer.
#[derive(Clone, Copy, Debug, PartialEq, Eq, Structural)]
pub struct HeadMoveMeta {
    pub seq_len: u32,
    pub full_dim: u32,
    pub head_dim: u32,
    pub head_offset: u32,
}

/// What a tensor holds at first.
pub enum TensorData {
    /// That many zeros.
    Zeros(usize),
    Reals(Vec<Real>),
    Words(Vec<u32>),
    AttnScale(AttnScaleMeta),
    HeadMove(HeadMoveMeta),
}

/// View of a [`TensorData`].
pub ghost enum Contents {
    Zeros(nat),
    Reals(Seq<Real>),
    Words(Seq<u32>),
    AttnScale(AttnScaleMeta),
    HeadMove(HeadMoveMeta),
}

impl View for TensorData {
    type V = Contents;

    open spec fn view(&self) -> Contents {
        match *self {
            TensorData::Zeros(len) => Contents::Zeros(len as nat),
            TensorData::Reals(values) => Contents::Reals(values@),
            TensorData::Words(values) => Contents::Words(values@),
            TensorData::AttnScale(meta) => Contents::AttnScale(meta),
            TensorData::HeadMove(meta) => Contents::HeadMove(meta),
        }
    }
}

/// The tensors of a plan, in the order in which they are made.
pub struct Tensors {
    pub data: Vec<TensorData>,
}

impl View for Tensors {
    type V = Seq<Contents>;

    open spec fn view(&self) -> Seq<Contents> {
        self.data@.map_values(|d: TensorData| d@)
    }
}

impl Tensors {
    pub fn new() -> (r: Tensors)
        ensures
            r@ == Seq::<Contents>::empty(),
    {
        Tensors { data: Vec::new() }
    }

    /// Adds a tensor that holds `data` at first.
    pub fn init_from_cpu(&mut self, data: TensorData) -> (r: TensorId)
        ensures
            final(self)@ == old(self)@.push(data@),
            final(self).data@ == old(self).data@.push(data),
            r.index == old(self)@.len(),
            r.index == old(self).data@.len(),
    {
        let index: usize = self.data.len();
        self.data.push(data);
        assert(self@ == old(self)@.push(data@));
        TensorId { index }
    }
}

/// How a kernel uses a tensor.
#[derive(Clone, Copy, Debug, PartialEq, Eq, Structural)]
pub enum TensorMode {
    Input,
    Output,
    InOut,
    Meta,
}

/// A tensor in one of a kernel's slots.
#[derive(Clone, Copy, Debug, PartialEq, Eq, Structural)]
pub struct TensorBind {
    pub binding: u32,
    pub tensor: TensorId,
    pub mode: TensorMode,
}

/// The device kernels. Matrices are stored row by row; `[M, N, K]` is the meta of a product.
#[derive(Clone, Copy, Debug, PartialEq, Eq, Structural)]
pub enum BuiltInShader {
    /// `C[M, N] = A[M, K] * B[K, N]`.
    MatMul,
    /// `C[M, N] = A[M, K] * B^T`, with `B` stored as `[N, K]`.
    MatMulTrp,
    /// `C[K, N] += A^T * B`, with `A` stored as `[M, K]` and `B` as `[M, N]`.
    MatMulWeightBwd,
    /// Scales the scores and hides what lies ahead of each row.
    CausalMask,
    /// Softmax of each row of scores.
    Softmax,
    /// Gradient of the scores before softmax, from the scores after it and their gradient.
    SoftmaxBwd,
    /// Fills a tensor with zeros.
    ZeroTensor,
    /// Copies one head's columns of a wide buffer to a narrow one.
    HeadGather,
    /// Copies a narrow buffer to one head's columns of a wide one.
    HeadScatter,
}

/// Number of workgroups of a dispatch in each direction.
#[derive(Clone, Copy, Debug, PartialEq, Eq, Structural)]
pub struct Grid {
    pub x: u32,
    pub y: u32,
    pub z: u32,
}

/// One dispatch of a kernel.
pub struct Node {
    pub shader: BuiltInShader,
    pub binds: Vec<TensorBind>,
    pub grid: Grid,
}

/// View of a [`Node`].
pub ghost struct Dispatch {
    pub shader: BuiltInShader,
    pub binds: Seq<TensorBind>,
    pub grid: Grid,
}

impl View for Node {
    type V = Dispatch;

    open spec fn view(&self) -> Dispatch {
        Dispatch { shader: self.shader, binds: self.binds@, grid: self.grid }
    }
}

/// Dispatches that run one after another.
pub struct ComputeGraph {
    pub nodes: Vec<Node>,
}

impl View for ComputeGraph {
    type V = Seq<Dispatch>;

    open spec fn view(&self) -> Seq<Dispatch> {
        self.nodes@.map_values(|n: Node| n@)
    }
}

impl ComputeGraph {
    pub fn new() -> (r: ComputeGraph)
        ensures
            r@ == Seq::<Dispatch>::empty(),
    {
        ComputeGraph { nodes: Vec::new() }
    }

    /// Adds a dispatch after those already there.
    pub fn add_node(&mut self, shader: BuiltInShader, binds: Vec<TensorBind>, grid: Grid)
        ensures
            final(self)@ == old(self)@.push(Dispatch { shader, binds: binds@, grid }),
            final(self).nodes@ == old(self).nodes@.push(Node { shader, binds, grid }),
    {
        self.nodes.push(Node { shader, binds, grid });
        assert(self@ == old(self)@.push(Dispatch { shader, binds: binds@, grid }));
    }
}

pub open spec fn bound(binding: u32, tensor: TensorId, mode: TensorMode) -> TensorBind {
    TensorBind { binding, tensor, mode }
}

fn bind(binding: u32, tensor: TensorId, mode: TensorMode) -> (r: TensorBind)
    ensures
        r == bound(binding, tensor, mode),
{
    TensorBind { binding, tensor, mode }
}

/// Slots of a kernel that makes `c` of `a` and `b`.
pub open spec fn combine_slots(
    a: TensorId,
    b: TensorId,
    c: TensorId,
    meta: TensorId,
) -> Seq<TensorBind> {
    seq![
        bound(0, a, TensorMode::Input),
        bound(1, b, TensorMode::Input),
        bound(2, c, TensorMode::Output),
        bound(3, meta, TensorMode::Meta),
    ]
}

/// Slots of a kernel that makes `dst` of `src`.
pub open spec fn move_slots(src: TensorId, dst: TensorId, meta: TensorId) -> Seq<TensorBind> {
    seq![
        bound(0, src, TensorMode::Input),
        bound(1, dst, TensorMode::Output),
        bound(2, meta, TensorMode::Meta),
    ]
}

/// Slots of a kernel that works on one tensor, read or not as `mode` says.
pub open spec fn single_slots(x: TensorId, mode: TensorMode, meta: TensorId) -> Seq<TensorBind> {
    seq![bound(0, x, mode), bound(1, meta, TensorMode::Meta)]
}

/// Number of blocks of `size` that cover `n`.
pub open spec fn blocks_for(n: int, size: int) -> int {
    (n + size - 1) / size
}

/// Grid of a kernel with one thread for each cell, in workgroups of 16 by 16.
pub open spec fn cell_grid(columns: int, rows: int) -> Grid {
    Grid { x: blocks_for(columns, 16) as u32, y: blocks_for(rows, 16) as u32, z: 1 }
}

/// Grid of a kernel with one thread for each element, in workgroups of 256.
pub open spec fn line_grid(n: int) -> Grid {
    Grid { x: blocks_for(n, 256) as u32, y: 1, z: 1 }
}

pub fn combine(a: TensorId, b: TensorId, c: TensorId, meta: TensorId) -> (r: Vec<TensorBind>)
    ensures
        r@ == combine_slots(a, b, c, meta),
        r@.len() == 4,
        forall|i: int| 0 <= i < 4 ==> (#[trigger] r@[i]).binding == i,
        r@[0].tensor == a && r@[0].mode == TensorMode::Input,
        r@[1].tensor == b && r@[1].mode == TensorMode::Input,
        r@[2].tensor == c && r@[2].mode == TensorMode::Output,
        r@[3].tensor == meta && r@[3].mode == TensorMode::Meta,
{
    vec![
        bind(0, a, TensorMode::Input),
        bind(1, b, TensorMode::Input),
        bind(2, c, TensorMode::Output),
        bind(3, meta, TensorMode::Meta),
    ]
}

pub fn relocate(src: TensorId, dst: TensorId, meta: TensorId) -> (r: Vec<TensorBind>)
    ensures
        r@ == move_slots(src, dst, meta),
        r@.len() == 3,
        forall|i: int| 0 <= i < 3 ==> (#[trigger] r@[i]).binding == i,
        r@[0].tensor == src && r@[0].mode == TensorMode::Input,
        r@[1].tensor == dst && r@[1].mode == TensorMode::Output,
        r@[2].tensor == meta && r@[2].mode == TensorMode::Meta,
{
    vec![
        bind(0, src, TensorMode::Input),
        bind(1, dst, TensorMode::Output),
        bind(2, meta, TensorMode::Meta),
    ]
}

pub fn single(x: TensorId, mode: TensorMode, meta: TensorId) -> (r: Vec<TensorBind>)
    ensures
        r@ == single_slots(x, mode, meta),
        r@.len() == 2,
        r@[0].binding == 0 && r@[0].tensor == x && r@[0].mode == mode,
        r@[1].binding == 1 && r@[1].tensor == meta && r@[1].mode == TensorMode::Meta,
{
    vec![bind(0, x, mode), bind(1, meta, TensorMode::Meta)]
}

pub fn cells(columns: u32, rows: u32) -> (r: Grid)
    requires
        columns + 15 <= u32::MAX,
        rows + 15 <= u32::MAX,
    ensures
        r == cell_grid(columns as int, rows as int),
        columns <= r.x * 16 < columns + 16,
        rows <= r.y * 16 < rows + 16,
        r.z == 1,
{
    Grid { x: (columns + 15) / 16, y: (rows + 15) / 16, z: 1 }
}

pub fn elements(n: u32) -> (r: Grid)
    requires
        n + 255 <= u32::MAX,
    ensures
        r == line_grid(n as int),
        n <= r.x * 256 < n + 256,
        r.y == 1 && r.z == 1,
{
    Grid { x: (n + 255) / 256, y: 1, z: 1 }
}

impl Contents {
    /// Number of elements.
    pub open spec fn len(self) -> nat {
        match self {
            Contents::Zeros(n) => n,
            Contents::Reals(values) => values.len(),
            Contents::Words(values) => values.len(),
            Contents::AttnScale(_) => 1,
            Contents::HeadMove(_) => 1,
        }
    }
}

/// The tensor in slot `i` of a dispatch.
pub open spec fn in_slot(tensors: Seq<Contents>, d: Dispatch, i: int) -> Contents {
    tensors[d.binds[i].tensor.index as int]
}

/// A dispatch names tensors of the plan, fills the first `n` slots in order and uses each as its
/// kernel does.
pub open spec fn slots_match(tensors: Seq<Contents>, d: Dispatch, modes: Seq<TensorMode>) -> bool {
    &&& d.binds.len() == modes.len()
    &&& forall|i: int|
        0 <= i < modes.len() ==> {
            &&& (#[trigger] d.binds[i]).binding == i
            &&& d.binds[i].mode == modes[i]
            &&& d.binds[i].tensor.index < tensors.len()
        }
}

/// Workgroups of 16 by 16 threads reach every cell, and none could be left out.
pub open spec fn covers_cells(grid: Grid, columns: int, rows: int) -> bool {
    columns <= grid.x * 16 < columns + 16 && rows <= grid.y * 16 < rows + 16 && grid.z == 1
}

/// Workgroups of 256 threads reach every element, and none could be left out.
pub open spec fn covers_line(grid: Grid, n: int) -> bool {
    n <= grid.x * 256 < n + 256 && grid.y == 1 && grid.z == 1
}

/// A dispatch of a matrix product whose operands have the given lengths, as functions of the
/// meta `[M, N, K]`, and whose product has one row for each of `rows` of it.
pub open spec fn is_product(
    tensors: Seq<Contents>,
    d: Dispatch,
    a_len: spec_fn(int, int, int) -> int,
    b_len: spec_fn(int, int, int) -> int,
    rows: spec_fn(int, int, int) -> int,
) -> bool {
    &&& slots_match(
        tensors,
        d,
        seq![TensorMode::Input, TensorMode::Input, TensorMode::Output, TensorMode::Meta],
    )
    &&& in_slot(tensors, d, 3) matches Contents::Words(meta)
    &&& meta.len() == 3
    &&& ({
        let (m, n, k) = (meta[0] as int, meta[1] as int, meta[2] as int);
        &&& in_slot(tensors, d, 0).len() == a_len(m, n, k)
        &&& in_slot(tensors, d, 1).len() == b_len(m, n, k)
        &&& in_slot(tensors, d, 2).len() == rows(m, n, k) * n
        &&& covers_cells(d.grid, n, rows(m, n, k))
    })
}

/// A dispatch that works in place on square attention scores.
pub open spec fn is_on_scores(tensors: Seq<Contents>, d: Dispatch) -> bool {
    &&& slots_match(tensors, d, seq![TensorMode::InOut, TensorMode::Meta])
    &&& in_slot(tensors, d, 1) matches Contents::AttnScale(meta)
    &&& in_slot(tensors, d, 0).len() == meta.seq_len * meta.seq_len
}

/// A dispatch that moves the columns of one head between tensors of the given widths.
pub open spec fn is_move(
    tensors: Seq<Contents>,
    d: Dispatch,
    src_width: spec_fn(HeadMoveMeta) -> int,
    dst_width: spec_fn(HeadMoveMeta) -> int,
) -> bool {
    &&& slots_match(
        tensors,
        d,
        seq![TensorMode::Input, TensorMode::Output, TensorMode::Meta],
    )
    &&& in_slot(tensors, d, 2) matches Contents::HeadMove(meta)
    &&& in_slot(tensors, d, 0).len() == meta.seq_len * src_width(meta)
    &&& in_slot(tensors, d, 1).len() == meta.seq_len * dst_width(meta)
    &&& meta.head_offset + meta.head_dim <= meta.full_dim
    &&& covers_cells(d.grid, meta.head_dim as int, meta.seq_len as int)
}

/// A dispatch fits its tensors: each has the length that the kernel's meta calls for, and the grid
/// reaches every element that the kernel writes.
#[verifier::opaque]
pub open spec fn fits(tensors: Seq<Contents>, d: Dispatch) -> bool {
    match d.shader {
        BuiltInShader::MatMul => is_product(
            tensors,
            d,
            |m: int, n: int, k: int| m * k,
            |m: int, n: int, k: int| k * n,
            |m: int, n: int, k: int| m,
        ),
        BuiltInShader::MatMulTrp => is_product(
            tensors,
            d,
            |m: int, n: int, k: int| m * k,
            |m: int, n: int, k: int| n * k,
            |m: int, n: int, k: int| m,
        ),
        BuiltInShader::MatMulWeightBwd => is_product(
            tensors,
            d,
            |m: int, n: int, k: int| m * k,
            |m: int, n: int, k: int| m * n,
            |m: int, n: int, k: int| k,
        ),
        BuiltInShader::CausalMask => {
            &&& is_on_scores(tensors, d)
            &&& in_slot(tensors, d, 1) matches Contents::AttnScale(meta)
            &&& covers_cells(d.grid, meta.seq_len as int, meta.seq_len as int)
        },
        BuiltInShader::Softmax => {
            &&& is_on_scores(tensors, d)
            &&& in_slot(tensors, d, 1) matches Contents::AttnScale(meta)
            &&& covers_line(d.grid, meta.seq_len as int)
        },
        BuiltInShader::SoftmaxBwd => {
            &&& slots_match(
                tensors,
                d,
                seq![TensorMode::Input, TensorMode::Input, TensorMode::Output, TensorMode::Meta],
            )
            &&& in_slot(tensors, d, 3) matches Contents::AttnScale(meta)
            &&& in_slot(tensors, d, 0).len() == meta.seq_len * meta.seq_len
            &&& in_slot(tensors, d, 1).len() == meta.seq_len * meta.seq_len
            &&& in_slot(tensors, d, 2).len() == meta.seq_len * meta.seq_len
            &&& covers_line(d.grid, meta.seq_len as int)
        },
        BuiltInShader::ZeroTensor => {
            &&& slots_match(tensors, d, seq![TensorMode::Output, TensorMode::Meta])
            &&& in_slot(tensors, d, 1) matches Contents::Words(meta)
            &&& meta.len() == 1
            &&& in_slot(tensors, d, 0).len() == meta[0]
            &&& covers_line(d.grid, meta[0] as int)
        },
        BuiltInShader::HeadGather => is_move(
            tensors,
            d,
            |meta: HeadMoveMeta| meta.full_dim as int,
            |meta: HeadMoveMeta| meta.head_dim as int,
        ),
        BuiltInShader::HeadScatter => is_move(
            tensors,
            d,
            |meta: HeadMoveMeta| meta.head_dim as int,
            |meta: HeadMoveMeta| meta.full_dim as int,
        ),
    }
}

/// A tensor whose contents a dispatch reads.
pub open spec fn reads(d: Dispatch, t: TensorId) -> bool {
    exists|i: int|
        0 <= i < d.binds.len() && (#[trigger] d.binds[i]).tensor == t && (d.binds[i].mode
            == TensorMode::Input || d.binds[i].mode == TensorMode::InOut)
}

/// A tensor that a dispatch fills.
pub open spec fn writes(d: Dispatch, t: TensorId) -> bool {
    exists|i: int|
        0 <= i < d.binds.len() && (#[trigger] d.binds[i]).tensor == t && (d.binds[i].mode
            == TensorMode::Output || d.binds[i].mode == TensorMode::InOut)
}

/// What a run of dispatches reads is `given`, or an earlier one of them has filled it.
pub open spec fn reads_only(given: Set<TensorId>, graph: Seq<Dispatch>) -> bool {
    forall|i: int, t: TensorId|
        0 <= i < graph.len() && #[trigger] reads(graph[i], t) ==> given.contains(t) || exists|
            j: int,
        | 0 <= j < i && #[trigger] writes(graph[j], t)
}

/// What a kernel with three operands reads and fills.
pub proof fn lemma_combine_uses(d: Dispatch, a: TensorId, b: TensorId, c: TensorId, meta: TensorId)
    requires
        d.binds == combine_slots(a, b, c, meta),
    ensures
        forall|t: TensorId| #[trigger] reads(d, t) <==> t == a || t == b,
        forall|t: TensorId| #[trigger] writes(d, t) <==> t == c,
{
    assert(d.binds[0] == bound(0, a, TensorMode::Input));
    assert(d.binds[1] == bound(1, b, TensorMode::Input));
    assert(d.binds[2] == bound(2, c, TensorMode::Output));
}

/// What a kernel that moves columns reads and fills.
pub proof fn lemma_move_uses(d: Dispatch, src: TensorId, dst: TensorId, meta: TensorId)
    requires
        d.binds == move_slots(src, dst, meta),
    ensures
        forall|t: TensorId| #[trigger] reads(d, t) <==> t == src,
        forall|t: TensorId| #[trigger] writes(d, t) <==> t == dst,
{
    assert(d.binds[0] == bound(0, src, TensorMode::Input));
    assert(d.binds[1] == bound(1, dst, TensorMode::Output));
}

/// What a kernel with one operand reads and fills.
pub proof fn lemma_single_uses(d: Dispatch, x: TensorId, mode: TensorMode, meta: TensorId)
    requires
        d.binds == single_slots(x, mode, meta),
        mode == TensorMode::Output || mode == TensorMode::InOut,
    ensures
        forall|t: TensorId| #[trigger] reads(d, t) <==> t == x && mode == TensorMode::InOut,
        forall|t: TensorId| #[trigger] writes(d, t) <==> t == x,
{
    assert(d.binds[0] == bound(0, x, mode));
}

pub open spec fn fills(graph: Seq<Dispatch>, t: TensorId) -> bool {
    exists|j: int| 0 <= j < graph.len() && #[trigger] writes(graph[j], t)
}

/// One graph after another reads no more than is given, if what the second one needs is given or
/// filled by the first.
pub proof fn lemma_reads_only_joined(
    given: Set<TensorId>,
    first: Seq<Dispatch>,
    needed: Set<TensorId>,
    second: Seq<Dispatch>,
)
    requires
        reads_only(given, first),
        reads_only(needed, second),
        forall|t: TensorId| #[trigger]
            needed.contains(t) ==> given.contains(t) || fills(first, t),
    ensures
        reads_only(given, first + second),
{
    let both = first + second;
    assert forall|i: int, t: TensorId|
        0 <= i < both.len() && #[trigger] reads(both[i], t) && !given.contains(t) implies exists|
        j: int,
    | 0 <= j < i && #[trigger] writes(both[j], t) by {
        if i < first.len() {
            assert(both[i] == first[i]);
            assert(reads(first[i], t));
            let j = choose|j: int| 0 <= j < i && #[trigger] writes(first[j], t);
            assert(both[j] == first[j]);
            assert(writes(both[j], t));
        } else {
            let k = i - first.len();
            assert(both[i] == second[k]);
            assert(reads(second[k], t));
            if needed.contains(t) {
                let j = choose|j: int| 0 <= j < first.len() && #[trigger] writes(first[j], t);
                assert(both[j] == first[j]);
                assert(writes(both[j], t));
            } else {
                let j = choose|j: int| 0 <= j < k && #[trigger] writes(second[j], t);
                assert(both[first.len() + j] == second[j]);
                assert(writes(both[first.len() + j], t));
            }
        }
    }
}

/// Every dispatch of a graph fits its tensors.
pub open spec fn all_fit(tensors: Seq<Contents>, graph: Seq<Dispatch>) -> bool {
    forall|i: int| 0 <= i < graph.len() ==> fits(tensors, #[trigger] graph[i])
}

/// A tensor of a plan, with its length.
pub open spec fn has_len(tensors: Seq<Contents>, t: TensorId, len: int) -> bool {
    t.index < tensors.len() && tensors[t.index as int].len() == len
}

/// Blocks cover what they are counted for, and one less would not.
pub proof fn law_blocks_cover(n: int, size: int)
    requires
        0 <= n,
        0 < size,
    ensures
        n <= blocks_for(n, size) * size < n + size,
        0 <= blocks_for(n, size) <= n,
        n > 0 ==> (blocks_for(n, size) - 1) * size < n,
{
    let b = blocks_for(n, size);
    vstd::arithmetic::div_mod::lemma_fundamental_div_mod(n + size - 1, size);
    assert(b * size == size * b) by (nonlinear_arith);
    assert((b - 1) * size == b * size - size) by (nonlinear_arith);
    assert(0 <= b) by (nonlinear_arith)
        requires
            size * b + (n + size - 1) % size == n + size - 1,
            (n + size - 1) % size < size,
            0 <= n,
            0 < size,
    ;
    assert(b <= n) by (nonlinear_arith)
        requires
            size * b <= n + size - 1,
            0 <= n,
            0 < size,
    ;
}

/// A grid has as many workgroups as reach every cell, or every element, and no more: one less in
/// a direction would leave some out.
pub proof fn law_grids_are_exact(columns: u32, rows: u32, n: u32)
    requires
        columns + 15 <= u32::MAX,
        rows + 15 <= u32::MAX,
        n + 255 <= u32::MAX,
    ensures
        columns <= cell_grid(columns as int, rows as int).x * 16 < columns + 16,
        rows <= cell_grid(columns as int, rows as int).y * 16 < rows + 16,
        cell_grid(columns as int, rows as int).z == 1,
        n <= line_grid(n as int).x * 256 < n + 256,
        line_grid(n as int).y == 1,
        line_grid(n as int).z == 1,
{
}

/// The view of a tensor's data is what it holds.
pub proof fn law_data_is_viewed_as_it_is(
    len: usize,
    values: Vec<Real>,
    words: Vec<u32>,
    scale: AttnScaleMeta,
    columns: HeadMoveMeta,
)
    ensures
        TensorData::Zeros(len)@ == Contents::Zeros(len as nat),
        TensorData::Reals(values)@ == Contents::Reals(values@),
        TensorData::Words(words)@ == Contents::Words(words@),
        TensorData::AttnScale(scale)@ == Contents::AttnScale(scale),
        TensorData::HeadMove(columns)@ == Contents::HeadMove(columns),
{
}

/// The view of a plan's tensors, and that of a graph, hold the view of each part in its place.
pub proof fn law_plans_are_viewed_in_order(tensors: Tensors, graph: ComputeGraph)
    ensures
        tensors@.len() == tensors.data@.len(),
        forall|i: int|
            0 <= i < tensors.data@.len() ==> #[trigger] tensors@[i] == tensors.data@[i]@,
        graph@.len() == graph.nodes@.len(),
        forall|i: int|
            0 <= i < graph.nodes@.len() ==> {
                &&& (#[trigger] graph@[i]).shader == graph.nodes@[i].shader
                &&& graph@[i].binds == graph.nodes@[i].binds@
                &&& graph@[i].grid == graph.nodes@[i].grid
            },
{
}

} // verus!
