use vstd::prelude::*;

use crate::value::{Ref, ref_below, refs_below, some_points_to, points_to, ref_index};

verus! {

/// The size in bytes of the header in front of every heap cell.
pub const GC_HEADER_SIZE: usize = 8;
/// Every cell is aligned to this many bytes.
pub const VALUE_ALIGN: usize = 8;
/// The size in bytes of an integer cell, without its header.
pub const INTEGER_SIZE: usize = 8;
/// The size in bytes of a list cell, without its header.
pub const LIST_SIZE: usize = 16;

/// The contents of a heap cell.
pub enum Cell {
    Integer(i64),
    /// A real number, held as the literal that wrote it.
    Real(Vec<char>),
    Str(Vec<char>),
    Symbol(Vec<char>),
    Keyword(Vec<char>),
    /// A list cell: its head and the rest of the list.
    Pair(Ref, Ref),
    Array(Vec<Ref>),
    Tuple(Vec<Ref>),
    /// A reference to another object, by its id.
    ObjectRef(usize),
    /// A function made by `fun`: the number of its code and the values of
    /// the local variables it captured.
    Closure(usize, Vec<Ref>),
    /// The reply to a message: the value the receiver answered.
    Reply(Ref),
}

/// The references a cell holds, in order.
pub open spec fn cell_refs(c: Cell) -> Seq<Ref> {
    match c {
        Cell::Pair(h, t) => seq![h, t],
        Cell::Array(v) => v@,
        Cell::Tuple(v) => v@,
        Cell::Closure(_, v) => v@,
        Cell::Reply(r) => seq![r],
        _ => Seq::empty(),
    }
}

/// `a` and `b` are the same kind of cell and agree on everything but the
/// references they hold.
pub open spec fn same_shape(a: Cell, b: Cell) -> bool {
    match (a, b) {
        (Cell::Integer(x), Cell::Integer(y)) => x == y,
        (Cell::Real(x), Cell::Real(y)) => x@ == y@,
        (Cell::Str(x), Cell::Str(y)) => x@ == y@,
        (Cell::Symbol(x), Cell::Symbol(y)) => x@ == y@,
        (Cell::Keyword(x), Cell::Keyword(y)) => x@ == y@,
        (Cell::Pair(_, _), Cell::Pair(_, _)) => true,
        (Cell::Array(x), Cell::Array(y)) => x@.len() == y@.len(),
        (Cell::Tuple(x), Cell::Tuple(y)) => x@.len() == y@.len(),
        (Cell::ObjectRef(x), Cell::ObjectRef(y)) => x == y,
        (Cell::Closure(a, x), Cell::Closure(b, y)) => a == b && x@.len() == y@.len(),
        (Cell::Reply(_), Cell::Reply(_)) => true,
        _ => false,
    }
}

/// The number of bytes the UTF-8 encoding of `c` takes.
pub open spec fn char_utf8_len(c: char) -> nat {
    if (c as u32) < 0x80 {
        1
    } else if (c as u32) < 0x800 {
        2
    } else if (c as u32) < 0x10000 {
        3
    } else {
        4
    }
}

/// The number of bytes the UTF-8 encoding of `s` takes.
pub open spec fn utf8_len(s: Seq<char>) -> nat
    decreases s.len(),
{
    if s.len() == 0 {
        0
    } else {
        utf8_len(s.drop_last()) + char_utf8_len(s.last())
    }
}

/// `n` rounded up to the value alignment.
pub open spec fn align_up(n: nat) -> nat {
    ((n + 7) / 8 * 8) as nat
}

/// The number of bytes a cell takes in the heap, its header included.
pub open spec fn cell_size(c: Cell) -> nat {
    GC_HEADER_SIZE as nat + match c {
        Cell::Integer(_) => INTEGER_SIZE as nat,
        Cell::Real(_) => 8,
        Cell::Str(s) => align_up(8 + utf8_len(s@)),
        Cell::Symbol(s) => align_up(8 + utf8_len(s@)),
        Cell::Keyword(s) => align_up(8 + utf8_len(s@)),
        Cell::Pair(_, _) => LIST_SIZE as nat,
        Cell::Array(v) => 8 + 8 * v@.len(),
        Cell::Tuple(v) => 8 + 8 * v@.len(),
        Cell::ObjectRef(_) => 16,
        Cell::Closure(_, v) => 8 + 8 * v@.len(),
        Cell::Reply(_) => 16,
    }
}

/// The number of bytes a list cell takes, its header included.
pub open spec fn pair_size() -> nat {
    GC_HEADER_SIZE as nat + LIST_SIZE as nat
}

/// The number of bytes an array or a tuple cell of `n` values takes, its
/// header included.
pub open spec fn seq_cell_size(n: nat) -> nat {
    GC_HEADER_SIZE as nat + 8 + 8 * n
}

/// The number of bytes all the cells of `s` take.
pub open spec fn sum_sizes(s: Seq<Cell>) -> nat
    decreases s.len(),
{
    if s.len() == 0 {
        0
    } else {
        sum_sizes(s.drop_last()) + cell_size(s.last())
    }
}

/// Every cell of `h` refers only to cells allocated before it.
pub open spec fn heap_wf(h: Seq<Cell>) -> bool {
    forall|i: int| 0 <= i < h.len() ==> refs_below(#[trigger] cell_refs(h[i]), i)
}

/// `r` is an immediate value or names a cell of `h`.
pub open spec fn valid_ref(h: Seq<Cell>, r: Ref) -> bool {
    ref_below(r, h.len() as int)
}

/// Every reference of `s` is valid in `h`.
pub open spec fn valid_refs(h: Seq<Cell>, s: Seq<Ref>) -> bool {
    refs_below(s, h.len() as int)
}

pub proof fn lemma_sum_sizes_push(s: Seq<Cell>, c: Cell)
    ensures
        sum_sizes(s.push(c)) == sum_sizes(s) + cell_size(c),
{
    assert(s.push(c).drop_last() =~= s);
}

pub proof fn lemma_utf8_len_push(s: Seq<char>, c: char)
    ensures
        utf8_len(s.push(c)) == utf8_len(s) + char_utf8_len(c),
{
    assert(s.push(c).drop_last() =~= s);
}

/// The number of bytes the UTF-8 encoding of `c` takes.
pub fn char_len_utf8(c: char) -> (n: usize)
    ensures
        n == char_utf8_len(c),
{
    let v = c as u32;
    if v < 0x80 {
        1
    } else if v < 0x800 {
        2
    } else if v < 0x10000 {
        3
    } else {
        4
    }
}

/// The number of bytes the UTF-8 encoding of `s` takes, if it fits a `usize`
/// below the given limit.
pub fn str_len_utf8(s: &Vec<char>, limit: usize) -> (res: Option<usize>)
    ensures
        match res {
            Some(n) => n == utf8_len(s@) && n <= limit,
            None => utf8_len(s@) > limit,
        },
{
    let mut total: usize = 0;
    let mut i: usize = 0;
    while i < s.len()
        invariant
            i <= s.len(),
            total == utf8_len(s@.subrange(0, i as int)),
            total <= limit,
        decreases s.len() - i,
    {
        proof {
            lemma_utf8_len_push(s@.subrange(0, i as int), s@[i as int]);
            assert(s@.subrange(0, i as int).push(s@[i as int]) =~= s@.subrange(0, i + 1));
        }
        let n = char_len_utf8(s[i]);
        if n > limit - total {
            proof {
                lemma_utf8_len_prefix_le(s@, i + 1);
            }
            return None;
        }
        total = total + n;
        i = i + 1;
    }
    assert(s@.subrange(0, s.len() as int) =~= s@);
    Some(total)
}

pub proof fn lemma_utf8_len_prefix_le(s: Seq<char>, k: int)
    requires
        0 <= k <= s.len(),
    ensures
        utf8_len(s.subrange(0, k)) <= utf8_len(s),
    decreases s.len() - k,
{
    if k < s.len() {
        lemma_utf8_len_push(s.subrange(0, k), s[k]);
        assert(s.subrange(0, k).push(s[k]) =~= s.subrange(0, k + 1));
        lemma_utf8_len_prefix_le(s, k + 1);
    } else {
        assert(s.subrange(0, k) =~= s);
    }
}

} // verus!

verus! {

/// The cell `j` can be reached from one of `roots` by following references.
/// Since cells refer only to older cells, a path to `j` goes through newer cells.
pub open spec fn reachable(h: Seq<Cell>, roots: Seq<Ref>, j: int) -> bool
    decreases h.len() - j, h.len() - j + 1,
{
    &&& 0 <= j < h.len()
    &&& (some_points_to(roots, j) || pointed_from(h, roots, j, j + 1))
}

/// Some reachable cell at index `k` or above refers to the cell `j`.
pub open spec fn pointed_from(h: Seq<Cell>, roots: Seq<Ref>, j: int, k: int) -> bool
    decreases h.len() - j, h.len() - k + 1,
{
    if 0 <= j < k < h.len() {
        (reachable(h, roots, k) && some_points_to(cell_refs(h[k]), j)) || pointed_from(h, roots, j, k + 1)
    } else {
        false
    }
}

/// `pointed_from` is the existence of a reachable referring cell.
pub proof fn lemma_pointed_from(h: Seq<Cell>, roots: Seq<Ref>, j: int, k: int)
    requires
        0 <= j < k,
    ensures
        pointed_from(h, roots, j, k) <==> exists|m: int|
            k <= m < h.len() && #[trigger] reachable(h, roots, m) && some_points_to(cell_refs(h[m]), j),
    decreases h.len() - k,
{
    if k < h.len() {
        lemma_pointed_from(h, roots, j, k + 1);
        if exists|m: int| k <= m < h.len() && #[trigger] reachable(h, roots, m) && some_points_to(cell_refs(h[m]), j) {
            let m = choose|m: int| k <= m < h.len() && #[trigger] reachable(h, roots, m) && some_points_to(cell_refs(h[m]), j);
            if m != k {
                assert(k + 1 <= m < h.len() && reachable(h, roots, m) && some_points_to(cell_refs(h[m]), j));
            }
        }
        if reachable(h, roots, k) && some_points_to(cell_refs(h[k]), j) {
            assert(k <= k < h.len() && reachable(h, roots, k) && some_points_to(cell_refs(h[k]), j));
        }
    }
}

/// Reachability unfolded: the cell is a root's or a newer reachable cell refers to it.
pub proof fn lemma_reachable_def(h: Seq<Cell>, roots: Seq<Ref>, j: int)
    ensures
        reachable(h, roots, j) <==> (0 <= j < h.len() && (some_points_to(roots, j) || exists|m: int|
            j < m < h.len() && #[trigger] reachable(h, roots, m) && some_points_to(cell_refs(h[m]), j))),
{
    if 0 <= j {
        lemma_pointed_from(h, roots, j, j + 1);
        if exists|m: int| j < m < h.len() && #[trigger] reachable(h, roots, m) && some_points_to(cell_refs(h[m]), j) {
            let m = choose|m: int| j < m < h.len() && #[trigger] reachable(h, roots, m) && some_points_to(cell_refs(h[m]), j);
            assert(j + 1 <= m < h.len() && reachable(h, roots, m) && some_points_to(cell_refs(h[m]), j));
        }
    }
}

} // verus!

verus! {

/// The size classes a heap goes through as it grows.
#[derive(Clone, Copy, Debug, PartialEq, Eq, Structural)]
pub enum HeapSize {
    _256,
    _512,
    _1k,
    _2k,
    _8k,
    _16k,
    _32k,
}

/// The size class a new heap starts with.
#[derive(Clone, Copy, Debug, PartialEq, Eq, Structural)]
pub enum StartHeapSize {
    Default,
    Small,
}

/// The largest number of bytes a heap can hold.
pub const MAX_HEAP_BYTES: usize = 32768;

/// The number of bytes a heap of the given size class can hold.
pub open spec fn spec_capacity(s: HeapSize) -> nat {
    match s {
        HeapSize::_256 => 256,
        HeapSize::_512 => 512,
        HeapSize::_1k => 1024,
        HeapSize::_2k => 2048,
        HeapSize::_8k => 8192,
        HeapSize::_16k => 16384,
        HeapSize::_32k => 32768,
    }
}

/// The size class that follows `s` (the largest one stays).
pub open spec fn spec_next_size(s: HeapSize) -> HeapSize {
    match s {
        HeapSize::_256 => HeapSize::_512,
        HeapSize::_512 => HeapSize::_1k,
        HeapSize::_1k => HeapSize::_2k,
        HeapSize::_2k => HeapSize::_8k,
        HeapSize::_8k => HeapSize::_16k,
        HeapSize::_16k => HeapSize::_32k,
        HeapSize::_32k => HeapSize::_32k,
    }
}

/// The number of bytes a heap of the given size class can hold.
pub fn capacity(s: HeapSize) -> (n: usize)
    ensures
        n == spec_capacity(s),
{
    match s {
        HeapSize::_256 => 256,
        HeapSize::_512 => 512,
        HeapSize::_1k => 1024,
        HeapSize::_2k => 2048,
        HeapSize::_8k => 8192,
        HeapSize::_16k => 16384,
        HeapSize::_32k => 32768,
    }
}

/// The size class that follows `s`.
pub fn next_size(s: HeapSize) -> (n: HeapSize)
    ensures
        n == spec_next_size(s),
{
    match s {
        HeapSize::_256 => HeapSize::_512,
        HeapSize::_512 => HeapSize::_1k,
        HeapSize::_1k => HeapSize::_2k,
        HeapSize::_2k => HeapSize::_8k,
        HeapSize::_8k => HeapSize::_16k,
        HeapSize::_16k => HeapSize::_32k,
        HeapSize::_32k => HeapSize::_32k,
    }
}

pub proof fn lemma_capacity_bounds(s: HeapSize)
    ensures
        256 <= spec_capacity(s) <= MAX_HEAP_BYTES,
        spec_capacity(s) <= spec_capacity(spec_next_size(s)),
        s != HeapSize::_32k ==> spec_capacity(s) < spec_capacity(spec_next_size(s)),
        s == HeapSize::_32k <==> spec_capacity(s) == MAX_HEAP_BYTES,
{
}

/// The memory of an object: a sequence of cells in allocation order, the
/// number of bytes they take, and the size class the heap has grown to.
pub struct Heap {
    cells: Vec<Cell>,
    used: usize,
    heap_size: HeapSize,
}

impl Heap {
    /// The cells of the heap, oldest first.
    pub closed spec fn view(&self) -> Seq<Cell> {
        self.cells@
    }

    /// The size class the heap has grown to.
    pub closed spec fn size_class(&self) -> HeapSize {
        self.heap_size
    }

    /// The cells refer only to older cells, `used` counts their bytes, and
    /// they fit the size class.
    pub closed spec fn wf(&self) -> bool {
        &&& heap_wf(self.cells@)
        &&& self.used == sum_sizes(self.cells@)
        &&& self.used < spec_capacity(self.heap_size)
    }

    /// A well-formed heap's cells refer only to older cells.
    pub proof fn lemma_wf(&self)
        requires
            self.wf(),
        ensures
            heap_wf(self@),
    {
    }

    /// The number of bytes the cells take.
    pub open spec fn spec_used(&self) -> nat {
        sum_sizes(self@)
    }

    /// An empty heap of the given starting size.
    pub fn new(startsize: StartHeapSize) -> (heap: Self)
        ensures
            heap.wf(),
            heap@ == Seq::<Cell>::empty(),
            heap.size_class() == (match startsize {
                StartHeapSize::Default => HeapSize::_2k,
                StartHeapSize::Small => HeapSize::_256,
            }),
    {
        let heap_size = match startsize {
            StartHeapSize::Default => HeapSize::_2k,
            StartHeapSize::Small => HeapSize::_256,
        };
        Heap { cells: Vec::new(), used: 0, heap_size }
    }

    /// An empty heap whose size class can hold at least `used` bytes.
    pub fn new_capacity(used: usize) -> (heap: Self)
        ensures
            heap.wf(),
            heap@ == Seq::<Cell>::empty(),
            used < MAX_HEAP_BYTES ==> used < spec_capacity(heap.size_class()),
            used >= MAX_HEAP_BYTES ==> heap.size_class() == HeapSize::_32k,
    {
        let mut heap_size = HeapSize::_256;
        while capacity(heap_size) <= used && heap_size != HeapSize::_32k
            invariant
                true,
            decreases MAX_HEAP_BYTES - spec_capacity(heap_size),
        {
            proof {
                lemma_capacity_bounds(heap_size);
            }
            heap_size = next_size(heap_size);
        }
        proof {
            lemma_capacity_bounds(heap_size);
        }
        Heap { cells: Vec::new(), used: 0, heap_size }
    }

    /// The number of bytes the cells take.
    pub fn used(&self) -> (n: usize)
        requires
            self.wf(),
        ensures
            n == self.spec_used(),
    {
        self.used
    }

    /// The number of cells.
    pub fn len(&self) -> (n: usize)
        ensures
            n == self@.len(),
    {
        self.cells.len()
    }

    /// Stores `cell` after all the others and returns a reference to it. When
    /// the current size class is full the heap grows to the next one that fits;
    /// when even the largest cannot hold it, the heap is left unchanged.
    pub fn allocate(&mut self, cell: Cell) -> (res: Result<Ref, OutOfMemory>)
        requires
            old(self).wf(),
            valid_refs(old(self)@, cell_refs(cell)),
        ensures
            final(self).wf(),
            res is Ok <==> old(self).spec_used() + cell_size(cell) < MAX_HEAP_BYTES,
            res matches Ok(r) ==> r == Ref::Ptr(old(self)@.len() as usize, false) && final(self)@
                == old(self)@.push(cell),
            res matches Ok(r) ==> r is Ptr && ref_index(r) == old(self)@.len(),
            res is Err ==> final(self)@ == old(self)@,
    {
        let size = match Self::allocation_size(&cell) {
            Some(n) => n,
            None => {
                return Err(OutOfMemory {});
            },
        };
        if size >= MAX_HEAP_BYTES - self.used {
            return Err(OutOfMemory {});
        }
        while self.used + size >= capacity(self.heap_size)
            invariant
                self.wf(),
                self.used + size < MAX_HEAP_BYTES,
                self.cells@ == old(self).cells@,
            decreases MAX_HEAP_BYTES - spec_capacity(self.heap_size),
        {
            proof {
                lemma_capacity_bounds(self.heap_size);
            }
            self.heap_size = next_size(self.heap_size);
        }
        let index = self.cells.len();
        proof {
            lemma_sum_sizes_push(self.cells@, cell);
            let h = self.cells@.push(cell);
            assert forall|i: int| 0 <= i < h.len() implies refs_below(#[trigger] cell_refs(h[i]), i) by {
                if i < self.cells@.len() {
                    assert(h[i] == self.cells@[i]);
                }
            }
        }
        self.cells.push(cell);
        self.used = self.used + size;
        Ok(Ref::Ptr(index, false))
    }

    /// The number of bytes `cell` takes in the heap, if it is below the
    /// largest heap size.
    pub fn allocation_size(cell: &Cell) -> (res: Option<usize>)
        ensures
            match res {
                Some(n) => n == cell_size(*cell) && n < MAX_HEAP_BYTES,
                None => cell_size(*cell) >= MAX_HEAP_BYTES,
            },
    {
        match cell {
            Cell::Integer(_) => Some(GC_HEADER_SIZE + INTEGER_SIZE),
            Cell::Real(_) => Some(GC_HEADER_SIZE + 8),
            Cell::Str(s) => Self::string_size(s),
            Cell::Symbol(s) => Self::string_size(s),
            Cell::Keyword(s) => Self::string_size(s),
            Cell::Pair(_, _) => Some(GC_HEADER_SIZE + LIST_SIZE),
            Cell::Array(v) => Self::refs_size(v.len()),
            Cell::Tuple(v) => Self::refs_size(v.len()),
            Cell::ObjectRef(_) => Some(GC_HEADER_SIZE + 16),
            Cell::Closure(_, v) => Self::refs_size(v.len()),
            Cell::Reply(_) => Some(GC_HEADER_SIZE + 16),
        }
    }

    fn string_size(s: &Vec<char>) -> (res: Option<usize>)
        ensures
            match res {
                Some(n) => n == GC_HEADER_SIZE + align_up(8 + utf8_len(s@)) && n < MAX_HEAP_BYTES,
                None => GC_HEADER_SIZE + align_up(8 + utf8_len(s@)) >= MAX_HEAP_BYTES,
            },
    {
        match str_len_utf8(s, MAX_HEAP_BYTES) {
            Some(n) => {
                let total = GC_HEADER_SIZE + (8 + n + 7) / 8 * 8;
                if total < MAX_HEAP_BYTES {
                    Some(total)
                } else {
                    None
                }
            },
            None => None,
        }
    }

    fn refs_size(len: usize) -> (res: Option<usize>)
        ensures
            match res {
                Some(n) => n == GC_HEADER_SIZE + 8 + 8 * len && n < MAX_HEAP_BYTES,
                None => GC_HEADER_SIZE + 8 + 8 * len >= MAX_HEAP_BYTES,
            },
    {
        if len >= MAX_HEAP_BYTES / 8 {
            None
        } else {
            let total = GC_HEADER_SIZE + 8 + 8 * len;
            if total < MAX_HEAP_BYTES {
                Some(total)
            } else {
                None
            }
        }
    }
}

/// The heap could not hold a new cell.
#[derive(Clone, Copy, Debug, PartialEq, Eq, Structural)]
pub struct OutOfMemory {}

} // verus!

verus! {

/// The cells of `h` that can be reached from `roots`.
pub open spec fn live_set(h: Seq<Cell>, roots: Seq<Ref>) -> Seq<bool> {
    Seq::new(h.len(), |j: int| reachable(h, roots, j))
}

/// The number of `true` entries of `s` before index `j`.
pub open spec fn count_true(s: Seq<bool>, j: int) -> nat
    decreases j,
{
    if j <= 0 {
        0
    } else {
        count_true(s, j - 1) + if s[j - 1] {
            1nat
        } else {
            0nat
        }
    }
}

/// Where a reference points once the live cells have been packed together.
pub open spec fn forward_ref(r: Ref, live: Seq<bool>) -> Ref {
    match r {
        Ref::Ptr(i, f) => Ref::Ptr(count_true(live, i as int) as usize, f),
        _ => r,
    }
}

/// The references of `s`, each moved to where its cell is packed.
pub open spec fn forward_refs(s: Seq<Ref>, live: Seq<bool>) -> Seq<Ref> {
    s.map_values(|r: Ref| forward_ref(r, live))
}

/// The cells a collection of `old_h` with roots `old_roots` leaves: exactly
/// the reachable cells, in their old order, each holding the forwarded
/// references.
pub open spec fn gc_cells_law(old_h: Seq<Cell>, old_roots: Seq<Ref>, new_h: Seq<Cell>) -> bool {
    let live = live_set(old_h, old_roots);
    &&& new_h.len() == count_true(live, old_h.len() as int)
    &&& forall|i: int|
        0 <= i < old_h.len() && #[trigger] live[i] ==> {
            &&& same_shape(new_h[count_true(live, i) as int], old_h[i])
            &&& cell_refs(new_h[count_true(live, i) as int]) == forward_refs(cell_refs(old_h[i]), live)
        }
}

/// What a collection of `old_h` with roots `old_roots` leaves: the reachable
/// cells packed as `gc_cells_law` says, and the roots forwarded to them.
pub open spec fn gc_law(old_h: Seq<Cell>, old_roots: Seq<Ref>, new_h: Seq<Cell>, new_roots: Seq<Ref>) -> bool {
    &&& gc_cells_law(old_h, old_roots, new_h)
    &&& new_roots == forward_refs(old_roots, live_set(old_h, old_roots))
}

pub proof fn lemma_count_true_bounds(s: Seq<bool>, j: int)
    requires
        0 <= j <= s.len(),
    ensures
        count_true(s, j) <= j,
    decreases j,
{
    if j > 0 {
        lemma_count_true_bounds(s, j - 1);
    }
}

pub proof fn lemma_count_true_mono(s: Seq<bool>, a: int, b: int)
    requires
        0 <= a <= b <= s.len(),
    ensures
        count_true(s, a) <= count_true(s, b),
        a < b && s[a] ==> count_true(s, a) < count_true(s, b),
    decreases b - a,
{
    if a < b {
        lemma_count_true_mono(s, a, b - 1);
        if a < b - 1 {
            lemma_count_true_mono(s, a + 1, b);
        }
    }
}

/// A cell reached from a reachable cell is reachable.
pub proof fn lemma_reachable_child(h: Seq<Cell>, roots: Seq<Ref>, k: int, j: int)
    requires
        heap_wf(h),
        reachable(h, roots, k),
        0 <= j,
        some_points_to(cell_refs(h[k]), j),
    ensures
        reachable(h, roots, j),
{
    let w = choose|c: int| 0 <= c < cell_refs(h[k]).len() && #[trigger] points_to(cell_refs(h[k])[c], j);
    assert(ref_below(cell_refs(h[k])[w], k));
    assert(j < k);
    lemma_reachable_def(h, roots, j);
    assert(j < k < h.len() && reachable(h, roots, k) && some_points_to(cell_refs(h[k]), j));
}

impl Heap {
    /// For every cell, whether it can be reached from `roots`.
    fn mark(&self, roots: &Vec<Ref>) -> (live: Vec<bool>)
        requires
            self.wf(),
            valid_refs(self@, roots@),
        ensures
            live@ == live_set(self@, roots@),
    {
        let n = self.cells.len();
        let ghost h = self.cells@;
        let mut live: Vec<bool> = Vec::new();
        while live.len() < n
            invariant
                live.len() <= n,
                forall|j: int| 0 <= j < live.len() ==> !live@[j],
            decreases n - live.len(),
        {
            live.push(false);
        }
        let mut k: usize = 0;
        while k < roots.len()
            invariant
                n == h.len(),
                h == self.cells@,
                live.len() == n,
                k <= roots.len(),
                valid_refs(h, roots@),
                forall|j: int|
                    0 <= j < n ==> (#[trigger] live@[j] <==> exists|c: int|
                        0 <= c < k && #[trigger] points_to(roots@[c], j)),
            decreases roots.len() - k,
        {
            match roots[k] {
                Ref::Ptr(j, _) => {
                    assert(ref_below(roots@[k as int], n as int));
                    live.set(j, true);
                },
                _ => {},
            }
            assert forall|j: int| 0 <= j < n implies (#[trigger] live@[j] <==> exists|c: int|
                0 <= c < k + 1 && #[trigger] points_to(roots@[c], j)) by {
                if points_to(roots@[k as int], j) {
                    assert(0 <= k < k + 1 && points_to(roots@[k as int], j));
                }
            }
            k = k + 1;
        }
        let mut i: usize = n;
        while i > 0
            invariant
                n == h.len(),
                h == self.cells@,
                heap_wf(h),
                live.len() == n,
                i <= n,
                forall|j: int|
                    0 <= j < n ==> (#[trigger] live@[j] <==> (some_points_to(roots@, j) || exists|m: int|
                        i <= m < n && #[trigger] reachable(h, roots@, m) && some_points_to(
                            cell_refs(h[m]),
                            j,
                        ))),
            decreases i,
        {
            i = i - 1;
            proof {
                self.lemma_live_is_reachable(roots@, live@, i + 1, i as int);
            }
            if live[i] {
                let children = self.cell_children(i);
                let mut c: usize = 0;
                while c < children.len()
                    invariant
                        n == h.len(),
                        h == self.cells@,
                        heap_wf(h),
                        live.len() == n,
                        i < n,
                        reachable(h, roots@, i as int),
                        children@ == cell_refs(h[i as int]),
                        c <= children.len(),
                        forall|j: int|
                            0 <= j < n ==> (#[trigger] live@[j] <==> (some_points_to(roots@, j) || (exists|m: int|
                                i + 1 <= m < n && #[trigger] reachable(h, roots@, m) && some_points_to(
                                    cell_refs(h[m]),
                                    j,
                                )) || exists|d: int| 0 <= d < c && #[trigger] points_to(children@[d], j))),
                    decreases children.len() - c,
                {
                    match children[c] {
                        Ref::Ptr(j, _) => {
                            assert(refs_below(cell_refs(h[i as int]), i as int));
                            assert(ref_below(children@[c as int], i as int));
                            live.set(j, true);
                        },
                        _ => {},
                    }
                    assert forall|j: int| 0 <= j < n implies (#[trigger] live@[j] <==> (some_points_to(roots@, j) || (exists|m: int|
                        i + 1 <= m < n && #[trigger] reachable(h, roots@, m) && some_points_to(
                            cell_refs(h[m]),
                            j,
                        )) || exists|d: int| 0 <= d < c + 1 && #[trigger] points_to(children@[d], j))) by {
                        if points_to(children@[c as int], j) {
                            assert(0 <= c < c + 1 && points_to(children@[c as int], j));
                        }
                    }
                    c = c + 1;
                }
                assert forall|j: int| 0 <= j < n implies (#[trigger] live@[j] <==> (some_points_to(roots@, j) || exists|m: int|
                    i <= m < n && #[trigger] reachable(h, roots@, m) && some_points_to(
                        cell_refs(h[m]),
                        j,
                    ))) by {
                    if some_points_to(cell_refs(h[i as int]), j) {
                        let d = choose|d: int| 0 <= d < cell_refs(h[i as int]).len() && #[trigger] points_to(cell_refs(h[i as int])[d], j);
                        assert(0 <= d < children.len() && points_to(children@[d], j));
                    }
                    if exists|d: int| 0 <= d < children.len() && #[trigger] points_to(children@[d], j) {
                        let d = choose|d: int| 0 <= d < children.len() && #[trigger] points_to(children@[d], j);
                        assert(some_points_to(cell_refs(h[i as int]), j));
                    }
                }
            } else {
                assert forall|j: int| 0 <= j < n implies (#[trigger] live@[j] <==> (some_points_to(roots@, j) || exists|m: int|
                    i <= m < n && #[trigger] reachable(h, roots@, m) && some_points_to(
                        cell_refs(h[m]),
                        j,
                    ))) by {
                    if exists|m: int| i <= m < n && #[trigger] reachable(h, roots@, m) && some_points_to(cell_refs(h[m]), j) {
                        let m = choose|m: int| i <= m < n && #[trigger] reachable(h, roots@, m) && some_points_to(cell_refs(h[m]), j);
                        assert(m != i);
                    }
                }
            }
        }
        proof {
            assert forall|j: int| 0 <= j < n implies #[trigger] live@[j] == reachable(h, roots@, j) by {
                self.lemma_live_is_reachable(roots@, live@, 0, j);
            }
            assert(live@ =~= live_set(h, roots@));
        }
        live
    }

    /// Under the marking invariant with bound `b`, the mark of a cell at or
    /// above `b - 1` is its reachability.
    proof fn lemma_live_is_reachable(&self, roots: Seq<Ref>, live: Seq<bool>, b: int, j: int)
        requires
            heap_wf(self@),
            live.len() == self@.len(),
            0 <= j < self@.len(),
            b <= j + 1,
            forall|x: int|
                0 <= x < self@.len() ==> (#[trigger] live[x] <==> (some_points_to(roots, x) || exists|m: int|
                    b <= m < self@.len() && #[trigger] reachable(self@, roots, m) && some_points_to(
                        cell_refs(self@[m]),
                        x,
                    ))),
        ensures
            live[j] == reachable(self@, roots, j),
    {
        let h = self@;
        lemma_reachable_def(h, roots, j);
        if live[j] {
            if !some_points_to(roots, j) {
                let m = choose|m: int| b <= m < h.len() && #[trigger] reachable(h, roots, m) && some_points_to(cell_refs(h[m]), j);
                lemma_reachable_child(h, roots, m, j);
            }
        }
        if reachable(h, roots, j) {
            if !some_points_to(roots, j) {
                let m = choose|m: int| j < m < h.len() && #[trigger] reachable(h, roots, m) && some_points_to(cell_refs(h[m]), j);
                assert(b <= m < h.len() && reachable(h, roots, m) && some_points_to(cell_refs(h[m]), j));
            }
        }
    }

    /// A copy of the references cell `i` holds.
    pub fn cell_children(&self, i: usize) -> (res: Vec<Ref>)
        requires
            i < self@.len(),
        ensures
            res@ == cell_refs(self@[i as int]),
    {
        match &self.cells[i] {
            Cell::Pair(h, t) => {
                let mut v = Vec::new();
                v.push(*h);
                v.push(*t);
                assert(v@ =~= seq![*h, *t]);
                v
            },
            Cell::Array(v) => copy_refs(v),
            Cell::Tuple(v) => copy_refs(v),
            Cell::Closure(_, v) => copy_refs(v),
            Cell::Reply(r) => {
                let mut v = Vec::new();
                v.push(*r);
                assert(v@ =~= seq![*r]);
                v
            },
            _ => {
                let v = Vec::new();
                assert(v@ =~= Seq::<Ref>::empty());
                v
            },
        }
    }
}

/// A copy of `v`.
pub fn copy_refs(v: &Vec<Ref>) -> (res: Vec<Ref>)
    ensures
        res@ == v@,
{
    let mut res = Vec::new();
    let mut i: usize = 0;
    while i < v.len()
        invariant
            i <= v.len(),
            res@ == v@.subrange(0, i as int),
        decreases v.len() - i,
    {
        res.push(v[i]);
        assert(res@ =~= v@.subrange(0, i + 1));
        i = i + 1;
    }
    assert(res@ =~= v@);
    res
}

/// A copy of `v`.
pub fn copy_chars(v: &Vec<char>) -> (res: Vec<char>)
    ensures
        res@ == v@,
{
    let mut res = Vec::new();
    let mut i: usize = 0;
    while i < v.len()
        invariant
            i <= v.len(),
            res@ == v@.subrange(0, i as int),
        decreases v.len() - i,
    {
        res.push(v[i]);
        assert(res@ =~= v@.subrange(0, i + 1));
        i = i + 1;
    }
    assert(res@ =~= v@);
    res
}

} // verus!

verus! {

/// Where a reference points according to the forwarding table `fwd`.
pub open spec fn forward_by(r: Ref, fwd: Seq<usize>) -> Ref {
    match r {
        Ref::Ptr(i, f) => Ref::Ptr(fwd[i as int], f),
        _ => r,
    }
}

/// Two cells of the same shape holding as many references take as many bytes.
pub proof fn lemma_same_shape_size(a: Cell, b: Cell)
    requires
        same_shape(a, b),
        cell_refs(a).len() == cell_refs(b).len(),
    ensures
        cell_size(a) == cell_size(b),
{
}

pub proof fn lemma_sum_sizes_take_le(s: Seq<Cell>, i: int)
    requires
        0 <= i <= s.len(),
    ensures
        sum_sizes(s.take(i)) <= sum_sizes(s),
    decreases s.len() - i,
{
    if i < s.len() {
        lemma_sum_sizes_push(s.take(i), s[i]);
        assert(s.take(i).push(s[i]) =~= s.take(i + 1));
        lemma_sum_sizes_take_le(s, i + 1);
    } else {
        assert(s.take(i) =~= s);
    }
}

/// The reference `r` moved by the forwarding table `fwd`.
fn forward_one(r: Ref, fwd: &Vec<usize>) -> (res: Ref)
    requires
        r is Ptr ==> ref_index(r) < fwd@.len(),
    ensures
        res == forward_by(r, fwd@),
{
    match r {
        Ref::Ptr(i, f) => Ref::Ptr(fwd[i], f),
        _ => r,
    }
}

/// The references of `v` moved by the forwarding table `fwd`.
fn forward_vec(v: Vec<Ref>, fwd: &Vec<usize>) -> (res: Vec<Ref>)
    requires
        forall|k: int| 0 <= k < v@.len() ==> (#[trigger] v@[k] is Ptr ==> ref_index(v@[k]) < fwd@.len()),
    ensures
        res@ == v@.map_values(|r: Ref| forward_by(r, fwd@)),
{
    let mut res: Vec<Ref> = Vec::new();
    let mut i: usize = 0;
    while i < v.len()
        invariant
            i <= v.len(),
            forall|k: int| 0 <= k < v@.len() ==> (#[trigger] v@[k] is Ptr ==> ref_index(v@[k]) < fwd@.len()),
            res@ == v@.subrange(0, i as int).map_values(|r: Ref| forward_by(r, fwd@)),
        decreases v.len() - i,
    {
        let r = forward_one(v[i], fwd);
        res.push(r);
        assert(res@ =~= v@.subrange(0, i + 1).map_values(|r: Ref| forward_by(r, fwd@)));
        i = i + 1;
    }
    assert(v@.subrange(0, v@.len() as int) =~= v@);
    res
}

/// The cell `c` with its references moved by the forwarding table `fwd`.
fn forward_cell(c: Cell, fwd: &Vec<usize>) -> (res: Cell)
    requires
        forall|k: int|
            0 <= k < cell_refs(c).len() ==> (#[trigger] cell_refs(c)[k] is Ptr ==> ref_index(cell_refs(c)[k])
                < fwd@.len()),
    ensures
        same_shape(res, c),
        cell_refs(res) == cell_refs(c).map_values(|r: Ref| forward_by(r, fwd@)),
{
    match c {
        Cell::Pair(h, t) => {
            assert(cell_refs(c)[0] == h);
            assert(cell_refs(c)[1] == t);
            let res = Cell::Pair(forward_one(h, fwd), forward_one(t, fwd));
            assert(cell_refs(res) =~= cell_refs(c).map_values(|r: Ref| forward_by(r, fwd@)));
            res
        },
        Cell::Array(v) => Cell::Array(forward_vec(v, fwd)),
        Cell::Tuple(v) => Cell::Tuple(forward_vec(v, fwd)),
        Cell::Closure(id, v) => Cell::Closure(id, forward_vec(v, fwd)),
        Cell::Reply(r) => {
            assert(cell_refs(c)[0] == r);
            let res = Cell::Reply(forward_one(r, fwd));
            assert(cell_refs(res) =~= cell_refs(c).map_values(|r: Ref| forward_by(r, fwd@)));
            res
        },
        other => {
            assert(cell_refs(other) =~= cell_refs(other).map_values(|r: Ref| forward_by(r, fwd@)));
            other
        },
    }
}

impl Heap {
    /// Collects the cells that cannot be reached from `roots`: the reachable
    /// cells are packed together in their old order, every reference to them
    /// (in the cells and in `roots`) is moved to the new place, and the heap
    /// grows to its next size class.
    pub fn gc(&mut self, roots: &mut Vec<Ref>)
        requires
            old(self).wf(),
            valid_refs(old(self)@, old(roots)@),
        ensures
            final(self).wf(),
            gc_law(old(self)@, old(roots)@, final(self)@, final(roots)@),
            final(self).size_class() == spec_next_size(old(self).size_class()),
    {
        let live = self.mark(roots);
        let ghost old_h = self.cells@;
        let ghost old_roots = roots@;
        let n = self.cells.len();
        let mut fwd: Vec<usize> = Vec::new();
        let mut cnt: usize = 0;
        let mut i: usize = 0;
        while i < n
            invariant
                n == old_h.len(),
                live@ == live_set(old_h, old_roots),
                i <= n,
                fwd.len() == i,
                forall|k: int| 0 <= k < i ==> #[trigger] fwd@[k] == count_true(live@, k),
                cnt == count_true(live@, i as int),
            decreases n - i,
        {
            proof {
                lemma_count_true_bounds(live@, i as int);
            }
            fwd.push(cnt);
            if live[i] {
                cnt = cnt + 1;
            }
            i = i + 1;
        }
        let mut new_used: usize = 0;
        let mut i: usize = 0;
        while i < n
            invariant
                n == old_h.len(),
                old_h == old(self)@,
                old(self).wf(),
                self.heap_size == old(self).heap_size,
                heap_wf(old_h),
                sum_sizes(old_h) < MAX_HEAP_BYTES,
                live@ == live_set(old_h, old_roots),
                fwd.len() == n,
                forall|k: int| 0 <= k < n ==> #[trigger] fwd@[k] == count_true(live@, k),
                i <= n,
                self.cells.len() == n,
                forall|k: int| i <= k < n ==> #[trigger] self.cells@[k] == old_h[k],
                forall|k: int|
                    0 <= k < i && #[trigger] live@[k] ==> {
                        &&& same_shape(self.cells@[count_true(live@, k) as int], old_h[k])
                        &&& cell_refs(self.cells@[count_true(live@, k) as int]) == forward_refs(
                            cell_refs(old_h[k]),
                            live@,
                        )
                    },
                heap_wf(self.cells@.take(count_true(live@, i as int) as int)),
                new_used == sum_sizes(self.cells@.take(count_true(live@, i as int) as int)),
                new_used <= sum_sizes(old_h.take(i as int)),
            decreases n - i,
        {
            proof {
                lemma_count_true_bounds(live@, i as int);
                lemma_sum_sizes_push(old_h.take(i as int), old_h[i as int]);
                assert(old_h.take(i as int).push(old_h[i as int]) =~= old_h.take(i + 1));
                lemma_sum_sizes_take_le(old_h, i + 1);
            }
            if live[i] {
                let ghost prefix = self.cells@.take(count_true(live@, i as int) as int);
                let mut c = Cell::Integer(0);
                std::mem::swap(&mut self.cells[i], &mut c);
                assert(c == old_h[i as int]);
                proof {
                    assert(refs_below(cell_refs(old_h[i as int]), i as int));
                    assert forall|k: int|
                        0 <= k < cell_refs(c).len() implies (#[trigger] cell_refs(c)[k] is Ptr ==> ref_index(
                            cell_refs(c)[k],
                        ) < fwd@.len()) by {
                        assert(ref_below(cell_refs(c)[k], i as int));
                    }
                }
                let m = forward_cell(c, &fwd);
                let ghost cm = m;
                proof {
                    let live_s = live@;
                    assert(live_s[i as int] == reachable(old_h, old_roots, i as int));
                    assert forall|k: int| 0 <= k < cell_refs(cm).len() implies #[trigger] cell_refs(cm)[k]
                        == forward_refs(cell_refs(old_h[i as int]), live_s)[k] by {
                        let r = cell_refs(old_h[i as int])[k];
                        assert(ref_below(r, i as int));
                        if r is Ptr {
                            assert(fwd@[ref_index(r)] == count_true(live_s, ref_index(r)));
                        }
                    }
                    assert(cell_refs(cm) =~= forward_refs(cell_refs(old_h[i as int]), live_s));
                    assert(refs_below(cell_refs(cm), count_true(live_s, i as int) as int)) by {
                        assert forall|k: int| 0 <= k < cell_refs(cm).len() implies #[trigger] ref_below(
                            cell_refs(cm)[k],
                            count_true(live_s, i as int) as int,
                        ) by {
                            let r = cell_refs(old_h[i as int])[k];
                            assert(ref_below(r, i as int));
                            if r is Ptr {
                                let j = ref_index(r);
                                assert(points_to(cell_refs(old_h[i as int])[k], j));
                                assert(some_points_to(cell_refs(old_h[i as int]), j));
                                lemma_reachable_child(old_h, old_roots, i as int, j);
                                assert(live_s[j]);
                                lemma_count_true_mono(live_s, j, i as int);
                            }
                        }
                    }
                    lemma_same_shape_size(cm, old_h[i as int]);
                }
                let size = match Self::allocation_size(&m) {
                    Some(s) => s,
                    None => 0,
                };
                let dest = fwd[i];
                self.cells[dest] = m;
                proof {
                    let live_s = live@;
                    assert(self.cells@.take(count_true(live_s, i + 1) as int) =~= prefix.push(cm));
                    lemma_sum_sizes_push(prefix, cm);
                    let h2 = prefix.push(cm);
                    assert forall|x: int| 0 <= x < h2.len() implies refs_below(#[trigger] cell_refs(h2[x]), x) by {
                        if x < prefix.len() {
                            assert(h2[x] == prefix[x]);
                        }
                    }
                    assert forall|k: int|
                        0 <= k < i + 1 && #[trigger] live_s[k] implies {
                            &&& same_shape(self.cells@[count_true(live_s, k) as int], old_h[k])
                            &&& cell_refs(self.cells@[count_true(live_s, k) as int]) == forward_refs(
                                cell_refs(old_h[k]),
                                live_s,
                            )
                        } by {
                        if k < i {
                            lemma_count_true_mono(live_s, k, i as int);
                        }
                    }
                }
                new_used = new_used + size;
            } else {
                proof {
                    let live_s = live@;
                    assert(count_true(live_s, i + 1) == count_true(live_s, i as int));
                }
            }
            i = i + 1;
        }
        proof {
            lemma_count_true_bounds(live@, n as int);
        }
        self.cells.truncate(cnt);
        proof {
            assert(self.cells@ =~= self.cells@.take(count_true(live@, n as int) as int));
            assert(old_h.take(n as int) =~= old_h);
        }
        let ghost new_h = self.cells@;
        proof {
            let live_s = live@;
            assert forall|x: int| 0 <= x < n && #[trigger] live_s[x] implies {
                &&& same_shape(new_h[count_true(live_s, x) as int], old_h[x])
                &&& cell_refs(new_h[count_true(live_s, x) as int]) == forward_refs(cell_refs(old_h[x]), live_s)
            } by {
                lemma_count_true_mono(live_s, x, n as int);
            }
            assert(gc_cells_law(old_h, old_roots, new_h));
        }
        let mut k: usize = 0;
        while k < roots.len()
            invariant
                self.cells@ == new_h,
                gc_cells_law(old_h, old_roots, new_h),
                self.heap_size == old(self).heap_size,
                roots.len() == old_roots.len(),
                n == old_h.len(),
                heap_wf(old_h),
                valid_refs(old_h, old_roots),
                live@ == live_set(old_h, old_roots),
                fwd.len() == n,
                forall|x: int| 0 <= x < n ==> #[trigger] fwd@[x] == count_true(live@, x),
                k <= roots.len(),
                forall|x: int| k <= x < roots.len() ==> #[trigger] roots@[x] == old_roots[x],
                forall|x: int| 0 <= x < k ==> #[trigger] roots@[x] == forward_ref(old_roots[x], live@),
            decreases roots.len() - k,
        {
            let r = roots[k];
            proof {
                assert(ref_below(old_roots[k as int], n as int));
            }
            let moved = forward_one(r, &fwd);
            roots[k] = moved;
            k = k + 1;
        }
        proof {
            assert(roots@ =~= forward_refs(old_roots, live@));
        }
        self.used = new_used;
        self.heap_size = next_size(self.heap_size);
        proof {
            lemma_capacity_bounds(old(self).heap_size);
        }
    }
}

} // verus!

verus! {

/// What kind of cell a heap index holds.
#[derive(Clone, Copy, Debug, PartialEq, Eq, Structural)]
pub enum CellKind {
    Integer,
    Real,
    Str,
    Symbol,
    Keyword,
    Pair,
    Array,
    Tuple,
    ObjectRef,
    Closure,
    Reply,
}

/// The kind of the cell `c`.
pub open spec fn spec_cell_kind(c: Cell) -> CellKind {
    match c {
        Cell::Integer(_) => CellKind::Integer,
        Cell::Real(_) => CellKind::Real,
        Cell::Str(_) => CellKind::Str,
        Cell::Symbol(_) => CellKind::Symbol,
        Cell::Keyword(_) => CellKind::Keyword,
        Cell::Pair(_, _) => CellKind::Pair,
        Cell::Array(_) => CellKind::Array,
        Cell::Tuple(_) => CellKind::Tuple,
        Cell::ObjectRef(_) => CellKind::ObjectRef,
        Cell::Closure(_, _) => CellKind::Closure,
        Cell::Reply(_) => CellKind::Reply,
    }
}

/// The characters a text cell (string, symbol, keyword, real) holds.
pub open spec fn cell_text(c: Cell) -> Seq<char> {
    match c {
        Cell::Real(s) => s@,
        Cell::Str(s) => s@,
        Cell::Symbol(s) => s@,
        Cell::Keyword(s) => s@,
        _ => Seq::empty(),
    }
}

impl Heap {
    /// The kind of cell `i`.
    pub fn kind(&self, i: usize) -> (k: CellKind)
        requires
            i < self@.len(),
        ensures
            k == spec_cell_kind(self@[i as int]),
    {
        match &self.cells[i] {
            Cell::Integer(_) => CellKind::Integer,
            Cell::Real(_) => CellKind::Real,
            Cell::Str(_) => CellKind::Str,
            Cell::Symbol(_) => CellKind::Symbol,
            Cell::Keyword(_) => CellKind::Keyword,
            Cell::Pair(_, _) => CellKind::Pair,
            Cell::Array(_) => CellKind::Array,
            Cell::Tuple(_) => CellKind::Tuple,
            Cell::ObjectRef(_) => CellKind::ObjectRef,
            Cell::Closure(_, _) => CellKind::Closure,
            Cell::Reply(_) => CellKind::Reply,
        }
    }

    /// The number an integer cell holds (0 for other cells).
    pub fn integer(&self, i: usize) -> (n: i64)
        requires
            i < self@.len(),
        ensures
            self@[i as int] matches Cell::Integer(x) ==> n == x,
    {
        match &self.cells[i] {
            Cell::Integer(x) => *x,
            _ => 0,
        }
    }

    /// The code number a closure cell holds (0 for other cells).
    pub fn closure_code(&self, i: usize) -> (n: usize)
        requires
            i < self@.len(),
        ensures
            self@[i as int] matches Cell::Closure(x, _) ==> n == x,
    {
        match &self.cells[i] {
            Cell::Closure(x, _) => *x,
            _ => 0,
        }
    }

    /// The id an object reference cell holds (0 for other cells).
    pub fn object_id(&self, i: usize) -> (n: usize)
        requires
            i < self@.len(),
        ensures
            self@[i as int] matches Cell::ObjectRef(x) ==> n == x,
    {
        match &self.cells[i] {
            Cell::ObjectRef(x) => *x,
            _ => 0,
        }
    }

    /// The head and rest of a list cell (nil for other cells).
    pub fn pair(&self, i: usize) -> (res: (Ref, Ref))
        requires
            i < self@.len(),
        ensures
            self@[i as int] matches Cell::Pair(h, t) ==> res == (h, t),
    {
        match &self.cells[i] {
            Cell::Pair(h, t) => (*h, *t),
            _ => (Ref::Nil, Ref::Nil),
        }
    }

    /// The value a reply cell holds (nil for other cells).
    pub fn reply_value(&self, i: usize) -> (res: Ref)
        requires
            i < self@.len(),
        ensures
            self@[i as int] matches Cell::Reply(r) ==> res == r,
    {
        match &self.cells[i] {
            Cell::Reply(r) => *r,
            _ => Ref::Nil,
        }
    }

    /// A copy of the characters of a text cell.
    pub fn text(&self, i: usize) -> (res: Vec<char>)
        requires
            i < self@.len(),
        ensures
            res@ == cell_text(self@[i as int]),
    {
        match &self.cells[i] {
            Cell::Real(s) => copy_chars(s),
            Cell::Str(s) => copy_chars(s),
            Cell::Symbol(s) => copy_chars(s),
            Cell::Keyword(s) => copy_chars(s),
            _ => {
                let v = Vec::new();
                assert(v@ =~= Seq::<char>::empty());
                v
            },
        }
    }

    /// The number of references cell `i` holds.
    pub fn refs_len(&self, i: usize) -> (n: usize)
        requires
            i < self@.len(),
        ensures
            n == cell_refs(self@[i as int]).len(),
    {
        match &self.cells[i] {
            Cell::Pair(_, _) => 2,
            Cell::Array(v) => v.len(),
            Cell::Tuple(v) => v.len(),
            Cell::Closure(_, v) => v.len(),
            Cell::Reply(_) => 1,
            _ => 0,
        }
    }

    /// The `k`-th reference cell `i` holds.
    pub fn ref_at(&self, i: usize, k: usize) -> (r: Ref)
        requires
            i < self@.len(),
            k < cell_refs(self@[i as int]).len(),
        ensures
            r == cell_refs(self@[i as int])[k as int],
    {
        match &self.cells[i] {
            Cell::Pair(h, t) => if k == 0 {
                *h
            } else {
                *t
            },
            Cell::Array(v) => v[k],
            Cell::Tuple(v) => v[k],
            Cell::Closure(_, v) => v[k],
            Cell::Reply(r) => *r,
            _ => Ref::Nil,
        }
    }

    /// The text of a text cell at `i` equals `s`.
    pub fn text_equals(&self, i: usize, s: &Vec<char>) -> (res: bool)
        requires
            i < self@.len(),
        ensures
            res == (cell_text(self@[i as int]) == s@),
    {
        match &self.cells[i] {
            Cell::Real(t) => chars_equal(t, s),
            Cell::Str(t) => chars_equal(t, s),
            Cell::Symbol(t) => chars_equal(t, s),
            Cell::Keyword(t) => chars_equal(t, s),
            _ => {
                let r = s.len() == 0;
                proof {
                    if r {
                        assert(s@ =~= Seq::<char>::empty());
                    }
                }
                r
            },
        }
    }
}

/// `a` and `b` hold the same characters.
pub fn chars_equal(a: &Vec<char>, b: &Vec<char>) -> (res: bool)
    ensures
        res == (a@ == b@),
{
    if a.len() != b.len() {
        return false;
    }
    let mut i: usize = 0;
    while i < a.len()
        invariant
            a.len() == b.len(),
            i <= a.len(),
            forall|k: int| 0 <= k < i ==> a@[k] == b@[k],
        decreases a.len() - i,
    {
        if a[i] != b[i] {
            return false;
        }
        i = i + 1;
    }
    assert(a@ =~= b@);
    true
}

} // verus!
