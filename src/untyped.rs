use crate::layout::{array_layout, padding_needed_for, Layout};
use vstd::prelude::*;

verus! {

/// The `size` bytes that start at byte `i * stride` of `bytes`: the element in slot `i`.
pub open spec fn slot(bytes: Seq<u8>, i: int, stride: int, size: int) -> Seq<u8> {
    bytes.subrange(i * stride, i * stride + size)
}

/// The first `n` slots of `bytes`.
pub open spec fn elems(bytes: Seq<u8>, n: nat, stride: int, size: int) -> Seq<Seq<u8>> {
    Seq::new(n, |i: int| slot(bytes, i, stride, size))
}

/// Writing `e` over the bytes of slot `index` replaces that one element.
proof fn lemma_replace_slot_with(bytes: Seq<u8>, n: nat, stride: int, size: int, index: int, e: Seq<u8>)
    requires
        0 <= size <= stride,
        0 <= index < n,
        bytes.len() == n * stride,
        e.len() == size,
    ensures
        elems(
            bytes.subrange(0, index * stride) + (e + bytes.subrange(index * stride + size, bytes.len() as int)),
            n,
            stride,
            size,
        ) == elems(bytes, n, stride, size).update(index, e),
{
    lemma_slot_order(index, index + 1, n as int, stride);
    let d = bytes.subrange(0, index * stride) + (e + bytes.subrange(index * stride + size, bytes.len() as int));
    assert forall|i: int| 0 <= i < n implies slot(d, i, stride, size) == #[trigger] elems(bytes, n, stride, size).update(index, e)[i] by {
        lemma_slot_order(i, i + 1, n as int, stride);
        if i < index {
            lemma_slot_order(i, index, n as int, stride);
        } else if i > index {
            lemma_slot_order(index, i, n as int, stride);
        }
        assert(slot(d, i, stride, size) =~= elems(bytes, n, stride, size).update(index, e)[i]);
    }
    assert(elems(d, n, stride, size) =~= elems(bytes, n, stride, size).update(index, e));
}

/// Writing any element's bytes over slot `index` replaces that one element.
proof fn lemma_replace_slot(bytes: Seq<u8>, n: nat, stride: int, size: int, index: int)
    requires
        0 <= size <= stride,
        0 <= index < n,
        bytes.len() == n * stride,
    ensures
        forall|e: Seq<u8>|
            e.len() == size ==> #[trigger] elems(
                bytes.subrange(0, index * stride) + (e + bytes.subrange(index * stride + size, bytes.len() as int)),
                n,
                stride,
                size,
            ) == elems(bytes, n, stride, size).update(index, e),
{
    assert forall|e: Seq<u8>| e.len() == size implies #[trigger] elems(
        bytes.subrange(0, index * stride) + (e + bytes.subrange(index * stride + size, bytes.len() as int)),
        n,
        stride,
        size,
    ) == elems(bytes, n, stride, size).update(index, e) by {
        lemma_replace_slot_with(bytes, n, stride, size, index, e);
    }
}

/// Slot `i` ends no later than slot `j` begins, and both lie inside `n` slots.
proof fn lemma_slot_order(i: int, j: int, n: int, stride: int)
    requires
        0 <= i < j <= n,
        stride >= 0,
    ensures
        0 <= i * stride,
        i * stride + stride <= j * stride,
        j * stride <= n * stride,
{
    assert(i * stride + stride <= j * stride && 0 <= i * stride) by (nonlinear_arith)
        requires
            0 <= i < j,
            stride >= 0,
    ;
    assert(j * stride <= n * stride) by (nonlinear_arith)
        requires
            j <= n,
            stride >= 0,
    ;
}

proof fn lemma_mul_mono(a: int, b: int, s: int)
    requires
        0 <= a <= b,
        s >= 0,
    ensures
        0 <= a * s <= b * s,
{
    assert(0 <= a * s <= b * s) by (nonlinear_arith)
        requires
            0 <= a <= b,
            s >= 0,
    ;
}

/// Relies on `Vec::reserve_exact`: it makes room for `additional` more items
/// and leaves the contents as they were.
#[verifier::external_body]
fn reserve_bytes(data: &mut Vec<u8>, additional: usize)
    requires
        old(data)@.len() + additional <= isize::MAX,
    ensures
        final(data)@ == old(data)@,
{
    data.reserve_exact(additional)
}

/// What one `pop` does to the elements `s`: the elements left and the one handed out.
pub open spec fn pop_model(s: Seq<Seq<u8>>) -> (Seq<Seq<u8>>, Option<Seq<u8>>) {
    if s.len() == 0 {
        (s, None)
    } else {
        (s.drop_last(), Some(s.last()))
    }
}

/// The bytes held by an optional buffer.
pub open spec fn opt_bytes(o: Option<Vec<u8>>) -> Option<Seq<u8>> {
    match o {
        Some(v) => Some(v@),
        None => None,
    }
}

/// Copies the `count` bytes at `src` over the `count` bytes at `dst`;
/// the two ranges do not overlap.
fn copy_bytes(data: &mut Vec<u8>, src: usize, dst: usize, count: usize)
    requires
        dst + count <= src || src + count <= dst,
        src + count <= old(data)@.len(),
        dst + count <= old(data)@.len(),
        old(data)@.len() <= isize::MAX,
    ensures
        final(data)@.len() == old(data)@.len(),
        forall|p: int|
            0 <= p < old(data)@.len() ==> #[trigger] final(data)@[p] == if dst <= p < dst + count {
                old(data)@[p - dst + src]
            } else {
                old(data)@[p]
            },
{
    let ghost pre = data@;
    let mut k: usize = 0;
    while k < count
        invariant
            k <= count,
            dst + count <= src || src + count <= dst,
            src + count <= pre.len(),
            dst + count <= pre.len(),
            pre.len() <= isize::MAX,
            data@.len() == pre.len(),
            forall|p: int|
                0 <= p < pre.len() ==> #[trigger] data@[p] == if dst <= p < dst + k {
                    pre[p - dst + src]
                } else {
                    pre[p]
                },
        decreases count - k,
    {
        let b = data[src + k];
        data.set(dst + k, b);
        k = k + 1;
    }
}

/// A growable array of elements of one shape, held as raw bytes.
///
/// Elements are laid out one after another, each in a slot of
/// `stride` bytes: the element's size rounded up to its alignment.
/// For a zero-sized shape nothing is ever allocated and the capacity is
/// `usize::MAX`. Storage grows by exactly what is asked for, never by a
/// doubling policy.
///
/// Elements are plain bytes here: the container never interprets them, and
/// the elements it gives up (`pop`, `swap_remove`, `clear`) are handed to the
/// caller, who owns whatever cleanup they need.
pub struct UntypedVec {
    data: Vec<u8>,
    capacity: usize,
    len: usize,
    layout: Layout,
}

impl View for UntypedVec {
    type V = Seq<Seq<u8>>;

    /// The live elements, in order, each as its `size` bytes.
    closed spec fn view(&self) -> Seq<Seq<u8>> {
        elems(self.data@, self.len as nat, self.layout.stride() as int, self.layout.size_spec() as int)
    }
}

impl UntypedVec {
    /// Number of element slots backed by storage.
    pub closed spec fn cap(&self) -> nat {
        self.capacity as nat
    }

    /// The element shape fixed at construction.
    pub closed spec fn shape(&self) -> Layout {
        self.layout
    }

    pub open spec fn elem_size(&self) -> nat {
        self.shape().size_spec()
    }

    pub closed spec fn wf(&self) -> bool {
        &&& self.layout.wf()
        &&& self.len <= self.capacity
        &&& self.data@.len() == self.len * self.layout.stride()
        &&& self.data@.len() <= isize::MAX
        &&& self.layout.size_spec() == 0 ==> self.capacity == usize::MAX
        &&& self.layout.size_spec() > 0 ==> self.capacity * self.layout.stride() <= isize::MAX
    }

    /// Room for `amount` more elements exists, or can be allocated: the new
    /// capacity's byte size fits in `isize`. A zero-sized shape never allocates.
    pub open spec fn can_reserve(&self, amount: nat) -> bool {
        ||| self@.len() + amount <= self.cap()
        ||| self.elem_size() > 0 && self.shape().stride() * (self.cap() + amount) <= isize::MAX
    }

    /// The capacity after making room for `amount` more elements: unchanged
    /// where there is room already, else grown by exactly `amount`.
    pub open spec fn reserved_capacity(&self, amount: nat) -> nat {
        if self@.len() + amount <= self.cap() {
            self.cap()
        } else {
            self.cap() + amount
        }
    }

    /// Facts that hold of every well-formed container.
    pub proof fn lemma_wf(&self)
        requires
            self.wf(),
        ensures
            self.shape().wf(),
            self@.len() <= self.cap() <= usize::MAX,
            self.elem_size() == 0 ==> self.cap() == usize::MAX,
            forall|i: int| 0 <= i < self@.len() ==> (#[trigger] self@[i]).len() == self.elem_size(),
    {
        let stride = self.layout.stride() as int;
        let size = self.layout.size_spec() as int;
        assert forall|i: int| 0 <= i < self@.len() implies (#[trigger] self@[i]).len() == self.elem_size() by {
            lemma_slot_order(i, i + 1, self.len as int, stride);
        }
    }

    /// An empty container for elements of `layout`.
    pub fn from_layout(layout: Layout) -> (r: Self)
        requires
            layout.wf(),
        ensures
            r.wf(),
            r@ == Seq::<Seq<u8>>::empty(),
            r.shape() == layout,
            r.cap() == if layout.size_spec() == 0 { usize::MAX as nat } else { 0 },
    {
        // Any number of zero-sized elements fits in no storage.
        let capacity: usize = if layout.size() == 0 { usize::MAX } else { 0 };
        let r = UntypedVec { data: Vec::new(), capacity, len: 0, layout };
        assert(r@ =~= Seq::<Seq<u8>>::empty());
        r
    }

    /// An empty container for elements of type `T`.
    pub fn new<T>() -> (r: Self)
        ensures
            r.wf(),
            r@ == Seq::<Seq<u8>>::empty(),
            r.elem_size() == vstd::layout::size_of::<T>(),
            r.shape().align_spec() == vstd::layout::align_of::<T>(),
            r.shape().stride() == r.elem_size(),
            r.cap() == if vstd::layout::size_of::<T>() == 0 { usize::MAX as nat } else { 0 },
    {
        Self::from_layout(Layout::new::<T>())
    }

    /// An empty container for elements of type `T` with room for `capacity` of them.
    pub fn with_capacity<T>(capacity: usize) -> (r: Self)
        requires
            vstd::layout::size_of::<T>() * capacity <= isize::MAX,
        ensures
            r.wf(),
            r@ == Seq::<Seq<u8>>::empty(),
            r.elem_size() == vstd::layout::size_of::<T>(),
            r.shape().align_spec() == vstd::layout::align_of::<T>(),
            r.shape().stride() == r.elem_size(),
            r.cap() == if vstd::layout::size_of::<T>() == 0 { usize::MAX as nat } else { capacity as nat },
    {
        let mut vec = UntypedVec::new::<T>();
        vec.reserve_exact(capacity);
        vec
    }

    pub fn capacity(&self) -> (r: usize)
        ensures
            r == self.cap(),
    {
        self.capacity
    }

    pub fn len(&self) -> (r: usize)
        ensures
            r == self@.len(),
    {
        self.len
    }

    /// The element shape.
    pub fn layout(&self) -> (r: &Layout)
        ensures
            *r == self.shape(),
    {
        &self.layout
    }

    /// Bytes from the start of one slot to the start of the next.
    fn stride(&self) -> (r: usize)
        requires
            self.wf(),
        ensures
            r == self.shape().stride(),
    {
        self.layout.size() + padding_needed_for(&self.layout, self.layout.align())
    }

    /// Makes room for at least `amount` more elements. Where there is not
    /// room already, the capacity grows by exactly `amount`.
    pub fn reserve_exact(&mut self, amount: usize)
        requires
            old(self).wf(),
            old(self).can_reserve(amount as nat),
        ensures
            final(self).wf(),
            final(self)@ == old(self)@,
            final(self).shape() == old(self).shape(),
            final(self).cap() == old(self).reserved_capacity(amount as nat),
            final(self)@.len() + amount <= final(self).cap(),
    {
        let avail = self.capacity - self.len;
        if avail < amount {
            self.grow(amount)
        }
    }

    fn grow(&mut self, amount: usize)
        requires
            old(self).wf(),
            old(self).elem_size() > 0,
            old(self).shape().stride() * (old(self).cap() + amount) <= isize::MAX,
        ensures
            final(self).wf(),
            final(self)@ == old(self)@,
            final(self).shape() == old(self).shape(),
            final(self).cap() == old(self).cap() + amount,
    {
        let ghost stride = self.layout.stride() as int;
        proof {
            assert(self.capacity + amount <= stride * (self.capacity + amount)) by (nonlinear_arith)
                requires
                    stride >= 1,
                    self.capacity + amount >= 0,
            ;
        }
        let new_capacity = self.capacity + amount;
        let new_layout = match array_layout(&self.layout, new_capacity) {
            Some(l) => l,
            None => return,
        };
        proof {
            lemma_mul_mono(self.len as int, new_capacity as int, stride);
            assert(new_capacity * stride == stride * new_capacity) by (nonlinear_arith);
        }
        let additional = new_layout.size() - self.data.len();
        reserve_bytes(&mut self.data, additional);
        self.capacity = new_capacity;
    }

    /// Copies out the bytes of the element at `index`.
    fn read_elem(&self, index: usize) -> (r: Vec<u8>)
        requires
            self.wf(),
            index < self@.len(),
        ensures
            r@ == self@[index as int],
    {
        let ghost s = self.layout.stride() as int;
        proof {
            lemma_slot_order(index as int, index + 1, self.len as int, s);
        }
        let size = self.layout.size();
        let start = index * self.stride();
        let mut out: Vec<u8> = Vec::new();
        let mut k: usize = 0;
        while k < size
            invariant
                k <= size,
                size == self.layout.size_spec(),
                start + size <= self.data@.len(),
                self.data@.len() <= isize::MAX,
                start == index * s,
                out@ == self.data@.subrange(start as int, start + k),
            decreases size - k,
        {
            out.push(self.data[start + k]);
            k = k + 1;
            assert(out@ =~= self.data@.subrange(start as int, start + k));
        }
        out
    }

    /// Appends `elem`, the bytes of one element, growing the storage by
    /// exactly one slot where it is full.
    pub fn push(&mut self, elem: &[u8])
        requires
            old(self).wf(),
            elem@.len() == old(self).elem_size(),
            old(self).can_reserve(1),
        ensures
            final(self).wf(),
            final(self)@ == old(self)@.push(elem@),
            final(self).shape() == old(self).shape(),
            final(self).cap() == old(self).reserved_capacity(1),
    {
        self.reserve_exact(1);
        let ghost pre = self.data@;
        let ghost s = self.layout.stride() as int;
        let size = self.layout.size();
        let pad = padding_needed_for(&self.layout, self.layout.align());
        let mut buf: Vec<u8> = Vec::new();
        let mut k: usize = 0;
        while k < size
            invariant
                k <= size,
                size == elem@.len(),
                buf@ == elem@.subrange(0, k as int),
            decreases size - k,
        {
            buf.push(elem[k]);
            k = k + 1;
            assert(buf@ =~= elem@.subrange(0, k as int));
        }
        proof {
            assert(elem@.subrange(0, size as int) =~= elem@);
        }
        let mut p: usize = 0;
        while p < pad
            invariant
                p <= pad,
                buf@.len() == size + p,
                buf@.subrange(0, size as int) == elem@,
            decreases pad - p,
        {
            let ghost before = buf@;
            buf.push(0u8);
            p = p + 1;
            assert(buf@.subrange(0, size as int) =~= before.subrange(0, size as int));
        }
        proof {
            let n = self.len as int;
            lemma_slot_order(n, n + 1, self.capacity as int, s);
            if size == 0 {
                self.layout.lemma_zero_size_stride();
                assert(n * s == 0) by (nonlinear_arith)
                    requires
                        s == 0,
                ;
            }
        }
        self.data.append(&mut buf);
        self.len = self.len + 1;
        proof {
            let n = self.len as int;
            assert(self.data@.len() == n * s) by (nonlinear_arith)
                requires
                    self.data@.len() == pre.len() + s,
                    pre.len() == (n - 1) * s,
            ;
            let d = self.data@;
            assert forall|i: int| 0 <= i < n - 1 implies slot(d, i, s, size as int) == slot(pre, i, s, size as int) by {
                lemma_slot_order(i, i + 1, n - 1, s);
                assert(slot(d, i, s, size as int) =~= slot(pre, i, s, size as int));
            }
            assert(slot(d, n - 1, s, size as int) =~= elem@);
            assert(self@ =~= old(self)@.push(elem@));
        }
    }

    /// The bytes of the element at `index`.
    pub fn get(&self, index: usize) -> (r: &[u8])
        requires
            self.wf(),
            index < self@.len(),
        ensures
            r@ == self@[index as int],
    {
        let ghost s = self.layout.stride() as int;
        proof {
            lemma_slot_order(index as int, index + 1, self.len as int, s);
        }
        let start = index * self.stride();
        let end = start + self.layout.size();
        &self.data.as_slice()[start..end]
    }

    /// Removes the element at `index` and returns its bytes. The last
    /// element's bytes are copied into the freed slot, so the order of the
    /// remaining elements is not kept.
    pub fn swap_remove(&mut self, index: usize) -> (r: Vec<u8>)
        requires
            old(self).wf(),
            index < old(self)@.len(),
        ensures
            final(self).wf(),
            r@ == old(self)@[index as int],
            final(self)@ == old(self)@.update(index as int, old(self)@.last()).drop_last(),
            final(self).shape() == old(self).shape(),
            final(self).cap() == old(self).cap(),
    {
        let value = self.read_elem(index);
        let ghost pre = self.data@;
        let ghost s = self.layout.stride() as int;
        let ghost n = self.len as int;
        let size = self.layout.size();
        let stride = self.stride();
        let last = self.len - 1;
        proof {
            lemma_slot_order(index as int, index + 1, n, s);
            lemma_slot_order(last as int, n, n, s);
        }
        let dst = index * stride;
        let src = last * stride;
        if index != last {
            proof {
                lemma_slot_order(index as int, last as int, n, s);
            }
            copy_bytes(&mut self.data, src, dst, size);
        }
        self.data.truncate(src);
        self.len = last;
        proof {
            let d = self.data@;
            let want = old(self)@.update(index as int, old(self)@.last()).drop_last();
            assert forall|i: int| 0 <= i < last implies slot(d, i, s, size as int) == #[trigger] want[i] by {
                lemma_slot_order(i, i + 1, last as int, s);
                if i != index {
                    if i < index {
                        lemma_slot_order(i, index as int, n, s);
                    } else {
                        lemma_slot_order(index as int, i, n, s);
                    }
                    assert(slot(d, i, s, size as int) =~= slot(pre, i, s, size as int));
                } else {
                    assert(slot(d, i, s, size as int) =~= slot(pre, last as int, s, size as int));
                }
            }
            assert(self@ =~= want);
        }
        value
    }

    /// Removes the last element and returns its bytes; `None` where there is none.
    pub fn pop(&mut self) -> (r: Option<Vec<u8>>)
        requires
            old(self).wf(),
        ensures
            final(self).wf(),
            (final(self)@, opt_bytes(r)) == pop_model(old(self)@),
            final(self).shape() == old(self).shape(),
            final(self).cap() == old(self).cap(),
    {
        if self.len == 0 {
            None
        } else {
            let last = self.len - 1;
            let value = self.read_elem(last);
            let ghost pre = self.data@;
            let ghost s = self.layout.stride() as int;
            let ghost size = self.layout.size_spec() as int;
            proof {
                lemma_slot_order(last as int, last + 1, last + 1, s);
            }
            self.data.truncate(last * self.stride());
            self.len = last;
            proof {
                assert forall|i: int| 0 <= i < last implies slot(self.data@, i, s, size) == slot(pre, i, s, size) by {
                    lemma_slot_order(i, i + 1, last as int, s);
                    assert(slot(self.data@, i, s, size) =~= slot(pre, i, s, size));
                }
                assert(self@ =~= old(self)@.drop_last());
            }
            Some(value)
        }
    }

    /// Removes every element, handing each one's bytes out exactly once, in
    /// order. The capacity is kept for reuse.
    pub fn clear(&mut self) -> (r: Vec<Vec<u8>>)
        requires
            old(self).wf(),
        ensures
            final(self).wf(),
            final(self)@ == Seq::<Seq<u8>>::empty(),
            r@.len() == old(self)@.len(),
            forall|i: int| 0 <= i < r@.len() ==> (#[trigger] r@[i])@ == old(self)@[i],
            final(self).shape() == old(self).shape(),
            final(self).cap() == old(self).cap(),
    {
        let len = self.len;
        let mut out: Vec<Vec<u8>> = Vec::new();
        let mut i: usize = 0;
        while i < len
            invariant
                self.wf(),
                len == self@.len(),
                i <= len,
                out@.len() == i,
                forall|j: int| 0 <= j < i ==> (#[trigger] out@[j])@ == self@[j],
            decreases len - i,
        {
            out.push(self.read_elem(i));
            i = i + 1;
        }
        self.len = 0;
        self.data.clear();
        proof {
            assert(self@ =~= Seq::<Seq<u8>>::empty());
        }
        out
    }

    /// The bytes of the element at `index`, to be changed in place.
    pub fn get_mut(&mut self, index: usize) -> (r: &mut [u8])
        requires
            old(self).wf(),
            index < old(self)@.len(),
        ensures
            r@ == old(self)@[index as int],
            final(r)@.len() == r@.len() ==> final(self).wf(),
            final(r)@.len() == r@.len() ==> final(self)@ == old(self)@.update(index as int, final(r)@),
            final(self).shape() == old(self).shape(),
            final(self).cap() == old(self).cap(),
    {
        let ghost s = self.layout.stride() as int;
        proof {
            lemma_slot_order(index as int, index + 1, self.len as int, s);
        }
        let start = index * self.stride();
        let size = self.layout.size();
        let ghost pre = self.data@;
        let bytes = self.data.as_mut_slice();
        let (_head, rest) = bytes.split_at_mut(start);
        let (elem, _tail) = rest.split_at_mut(size);
        proof {
            lemma_replace_slot(pre, self.len as nat, s, size as int, index as int);
            assert(final(_head)@ + (final(elem)@ + final(_tail)@) == pre.subrange(0, start as int) + (final(elem)@ + pre.subrange(start + size, pre.len() as int)));
        }
        elem
    }
}

} // verus!
