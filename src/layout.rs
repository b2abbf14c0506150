use vstd::arithmetic::power2::is_pow2;
use vstd::arithmetic::div_mod::{lemma_fundamental_div_mod, lemma_mod_multiples_basic};
use vstd::prelude::*;

verus! {

/// Bytes needed after `size` to reach the next multiple of `align`.
pub open spec fn padding_for(size: int, align: int) -> int {
    if size % align == 0 {
        0
    } else {
        align - size % align
    }
}

/// `size` rounded up to a multiple of `align`.
pub open spec fn padded(size: int, align: int) -> int {
    size + padding_for(size, align)
}

/// The shape of one element: its size in bytes and its alignment.
#[derive(Clone, Copy, Debug, PartialEq, Eq, Structural)]
pub struct Layout {
    size: usize,
    align: usize,
}

impl Layout {
    pub closed spec fn size_spec(&self) -> nat {
        self.size as nat
    }

    pub closed spec fn align_spec(&self) -> nat {
        self.align as nat
    }

    /// Distance in bytes between consecutive elements of an array of this shape.
    pub open spec fn stride(&self) -> nat {
        padded(self.size_spec() as int, self.align_spec() as int) as nat
    }

    /// The alignment is a (nonzero) power of two and one padded element fits in `isize`.
    pub open spec fn wf(&self) -> bool {
        &&& is_pow2(self.align_spec() as int)
        &&& self.align_spec() > 0
        &&& self.stride() <= isize::MAX
    }

    /// A zero-sized shape takes no bytes per element.
    pub proof fn lemma_zero_size_stride(&self)
        requires
            self.wf(),
            self.size_spec() == 0,
        ensures
            self.stride() == 0,
    {
        lemma_mod_multiples_basic(0, self.align_spec() as int);
    }

    /// The shape of values of type `T`.
    pub fn new<T>() -> (r: Layout)
        ensures
            r.wf(),
            r.size_spec() == vstd::layout::size_of::<T>(),
            r.align_spec() == vstd::layout::align_of::<T>(),
            r.stride() == r.size_spec(),
    {
        vstd::layout::layout_for_type_is_valid::<T>();
        let size = core::mem::size_of::<T>();
        let align = core::mem::align_of::<T>();
        Layout { size, align }
    }

    /// A shape of the given size and alignment: `None` unless the alignment
    /// is a power of two and the size, rounded up to it, fits in `isize`.
    pub fn from_size_align(size: usize, align: usize) -> (r: Option<Layout>)
        ensures
            r is Some <==> is_pow2(align as int) && padded(size as int, align as int) <= isize::MAX,
            r matches Some(l) ==> l.size_spec() == size && l.align_spec() == align && l.wf(),
    {
        if !is_power_of_two(align) {
            return None;
        }
        let pad = if size % align == 0 {
            0
        } else {
            align - size % align
        };
        match size.checked_add(pad) {
            Some(total) => {
                if total <= isize::MAX as usize {
                    Some(Layout { size, align })
                } else {
                    None
                }
            },
            None => None,
        }
    }

    pub fn size(&self) -> (r: usize)
        ensures
            r == self.size_spec(),
    {
        self.size
    }

    pub fn align(&self) -> (r: usize)
        ensures
            r == self.align_spec(),
    {
        self.align
    }
}

fn is_power_of_two(n: usize) -> (r: bool)
    ensures
        r == is_pow2(n as int),
        r ==> n > 0,
{
    proof {
        reveal(is_pow2);
    }
    let mut x: usize = n;
    if x == 0 {
        return false;
    }
    while x != 1
        invariant
            x > 0,
            is_pow2(n as int) == is_pow2(x as int),
        decreases x,
    {
        proof {
            reveal(is_pow2);
        }
        if x % 2 != 0 {
            return false;
        }
        x = x / 2;
    }
    true
}

/// How many bytes of padding follow `layout`'s size to reach a multiple of `align`.
pub fn padding_needed_for(layout: &Layout, align: usize) -> (r: usize)
    requires
        align > 0,
    ensures
        r == padding_for(layout.size_spec() as int, align as int),
        r < align,
{
    let len = layout.size();
    let rem = len % align;
    if rem == 0 {
        0
    } else {
        align - rem
    }
}

/// A padded size, and any whole number of padded sizes, is a multiple of the alignment.
pub proof fn lemma_padded_multiple(size: int, align: int, n: int)
    requires
        size >= 0,
        align > 0,
    ensures
        padded(size, align) % align == 0,
        (padded(size, align) * n) % align == 0,
{
    lemma_fundamental_div_mod(size, align);
    let k = if size % align == 0 {
        size / align
    } else {
        size / align + 1
    };
    assert(padded(size, align) == k * align) by (nonlinear_arith)
        requires
            size == align * (size / align) + size % align,
            k == (if size % align == 0 {
                size / align
            } else {
                size / align + 1
            }),
            padded(size, align) == size + padding_for(size, align),
            padding_for(size, align) == (if size % align == 0 {
                0
            } else {
                align - size % align
            }),
    ;
    lemma_mod_multiples_basic(k, align);
    assert(padded(size, align) * n == (k * n) * align) by (nonlinear_arith)
        requires
            padded(size, align) == k * align,
    ;
    lemma_mod_multiples_basic(k * n, align);
}

/// The layout of `n` elements of `layout` laid out as an array, with the
/// distance between consecutive elements. `None` where the array's size
/// overflows or does not fit in `isize`.
pub fn repeat_layout(layout: &Layout, n: usize) -> (r: Option<(Layout, usize)>)
    requires
        layout.wf(),
    ensures
        r is Some <==> layout.stride() * n <= isize::MAX,
        r matches Some((l, offset)) ==> {
            &&& l.wf()
            &&& l.size_spec() == layout.stride() * n
            &&& l.align_spec() == layout.align_spec()
            &&& l.stride() == l.size_spec()
            &&& offset == layout.stride()
        },
{
    let padded_size = layout.size() + padding_needed_for(layout, layout.align());
    let alloc_size = match padded_size.checked_mul(n) {
        Some(s) => s,
        None => {
            return None;
        },
    };
    if alloc_size > isize::MAX as usize {
        return None;
    }
    proof {
        lemma_padded_multiple(layout.size_spec() as int, layout.align_spec() as int, n as int);
    }
    Some((Layout { size: alloc_size, align: layout.align() }, padded_size))
}

/// The layout of an array of `amount` elements of `layout`.
pub fn array_layout(layout: &Layout, amount: usize) -> (r: Option<Layout>)
    requires
        layout.wf(),
    ensures
        r is Some <==> layout.stride() * amount <= isize::MAX,
        r matches Some(l) ==> {
            &&& l.wf()
            &&& l.size_spec() == layout.stride() * amount
            &&& l.align_spec() == layout.align_spec()
        },
{
    match repeat_layout(layout, amount) {
        Some((array, _offset)) => Some(array),
        None => None,
    }
}

} // verus!
