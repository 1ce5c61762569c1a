//! Paged attribute storage: how a flat run of raw scalars is laid out in
//! pages, and what it holds for each item.

use vstd::prelude::*;
use crate::convert_from_trait::ConvertFromAll;
use crate::houdini_geo_schema::SchemaError;

verus! {

/// How the items of an attribute are laid out in a raw run of scalars.
///
/// The items come in pages of `page_size` items; the last page may hold
/// fewer. A tuple is split into subcomponents, `packing` giving the width
/// of each. Within a page the subcomponents follow one another; each
/// holds its part of every item of the page, item after item, unless the
/// page is flagged constant for it: then it holds one part, which stands
/// for every item of the page. `flags[sv]` holds the flags of
/// subcomponent `sv`, one for each page, or nothing where no page is
/// constant for it.
pub struct PageLayout {
    pub page_size: int,
    pub packing: Seq<usize>,
    pub flags: Seq<Seq<bool>>,
}

/// The number of items of page `p`, of `n` items in all.
pub open spec fn items_in(layout: PageLayout, n: int, p: int) -> int {
    if n - p * layout.page_size < layout.page_size {
        n - p * layout.page_size
    } else {
        layout.page_size
    }
}

/// The number of pages that `n` items take.
pub open spec fn page_count(layout: PageLayout, n: int) -> int {
    if n <= 0 || layout.page_size <= 0 {
        0
    } else {
        (n - 1) / layout.page_size + 1
    }
}

/// Whether page `p` is constant for subcomponent `sv`.
pub open spec fn is_constant(layout: PageLayout, sv: int, p: int) -> bool {
    0 <= sv < layout.flags.len() && 0 <= p < layout.flags[sv].len() && layout.flags[sv][p]
}

/// The number of raw scalars that subcomponent `sv` takes in page `p`.
pub open spec fn run_len(layout: PageLayout, n: int, p: int, sv: int) -> int {
    if is_constant(layout, sv, p) {
        layout.packing[sv] as int
    } else {
        layout.packing[sv] * items_in(layout, n, p)
    }
}

/// The number of raw scalars that the subcomponents before `sv` take in
/// page `p`.
pub open spec fn runs_before(layout: PageLayout, n: int, p: int, sv: int) -> int
    decreases sv,
{
    if sv <= 0 {
        0
    } else {
        runs_before(layout, n, p, sv - 1) + run_len(layout, n, p, sv - 1)
    }
}

/// The number of raw scalars of page `p`.
pub open spec fn page_len(layout: PageLayout, n: int, p: int) -> int {
    runs_before(layout, n, p, layout.packing.len() as int)
}

/// The number of raw scalars of the pages before `p`.
pub open spec fn pages_before(layout: PageLayout, n: int, p: int) -> int
    decreases p,
{
    if p <= 0 {
        0
    } else {
        pages_before(layout, n, p - 1) + page_len(layout, n, p - 1)
    }
}

/// The sum of the widths of the subcomponents before `sv`.
pub open spec fn width_before(packing: Seq<usize>, sv: int) -> int
    decreases sv,
{
    if sv <= 0 {
        0
    } else {
        width_before(packing, sv - 1) + packing[sv - 1]
    }
}

/// The place in the raw run of part `k` of subcomponent `sv` of item `j`.
pub open spec fn source_of(layout: PageLayout, n: int, j: int, sv: int, k: int) -> int {
    let p = j / layout.page_size;
    let i = j % layout.page_size;
    pages_before(layout, n, p) + runs_before(layout, n, p, sv) + (if is_constant(layout, sv, p) {
        k
    } else {
        i * layout.packing[sv] + k
    })
}

/// The parts of the subcomponents before `sv` of item `j`, in order,
/// each converted to the type of the attribute.
pub open spec fn item_parts<T: ConvertFromAll<K>, K>(
    layout: PageLayout,
    raw: Seq<K>,
    n: int,
    j: int,
    sv: int,
) -> Seq<T>
    decreases sv,
{
    if sv <= 0 {
        Seq::empty()
    } else {
        item_parts::<T, K>(layout, raw, n, j, sv - 1) + Seq::new(
            layout.packing[sv - 1] as nat,
            |k: int| T::converted(raw[source_of(layout, n, j, sv - 1, k)]),
        )
    }
}

/// The tuples of the items before `j`, one after the other.
pub open spec fn items_before<T: ConvertFromAll<K>, K>(
    layout: PageLayout,
    raw: Seq<K>,
    n: int,
    j: int,
) -> Seq<T>
    decreases j,
{
    if j <= 0 {
        Seq::empty()
    } else {
        items_before::<T, K>(layout, raw, n, j - 1) + item_parts::<T, K>(
            layout,
            raw,
            n,
            j - 1,
            layout.packing.len() as int,
        )
    }
}

/// Whether each of the first `upto` subcomponents has its flags: one for
/// each page, or none at all.
pub open spec fn flags_cover(layout: PageLayout, n: int, upto: int) -> bool {
    forall|sv: int|
        0 <= sv < upto ==> sv < layout.flags.len() && ((#[trigger] layout.flags[sv]).len() == 0
            || layout.flags[sv].len() >= page_count(layout, n))
}

/// Whether a layout fits `n` items of `tuple_size` scalars each and a
/// raw run of `raw_len` scalars, and the error where it does not: pages
/// must hold at least one item; the widths of the subcomponents must add
/// up to the size of a tuple; each subcomponent must have its flags, one
/// for each page or none at all; and the pages must take the raw run
/// from its first scalar to its last.
pub open spec fn layout_check(layout: PageLayout, n: int, tuple_size: int, raw_len: int) -> Result<
    (),
    SchemaError,
> {
    if n * tuple_size > usize::MAX {
        Err(SchemaError::OutOfRange)
    } else if n > 0 && layout.page_size <= 0 {
        Err(SchemaError::OutOfRange)
    } else if width_before(layout.packing, layout.packing.len() as int) != tuple_size {
        Err(SchemaError::Inconsistent)
    } else if n > 0 && !flags_cover(layout, n, layout.packing.len() as int) {
        Err(SchemaError::Inconsistent)
    } else if pages_before(layout, n, page_count(layout, n)) != raw_len {
        Err(SchemaError::Inconsistent)
    } else {
        Ok(())
    }
}

/// The flat run of the tuples of `n` items that a paged raw run holds.
pub open spec fn unpaged<T: ConvertFromAll<K>, K>(
    layout: PageLayout,
    raw: Seq<K>,
    n: int,
    tuple_size: int,
) -> Result<Seq<T>, SchemaError> {
    match layout_check(layout, n, tuple_size, raw.len() as int) {
        Err(x) => Err(x),
        Ok(_) => Ok(items_before::<T, K>(layout, raw, n, n)),
    }
}

/// A layout as it was read.
pub struct Layout {
    pub page_size: usize,
    pub packing: Vec<usize>,
    pub flags: Vec<Vec<bool>>,
}

impl View for Layout {
    type V = PageLayout;

    open spec fn view(&self) -> PageLayout {
        PageLayout {
            page_size: self.page_size as int,
            packing: self.packing@,
            flags: Seq::new(self.flags@.len(), |i: int| self.flags@[i]@),
        }
    }
}

/// No page has fewer than no items, and none more than a page holds.
pub proof fn lemma_items_in(layout: PageLayout, n: int, p: int)
    requires
        layout.page_size > 0,
        0 <= p < page_count(layout, n),
    ensures
        1 <= items_in(layout, n, p) <= layout.page_size,
        p * layout.page_size + items_in(layout, n, p) <= n,
        p + 1 < page_count(layout, n) ==> items_in(layout, n, p) == layout.page_size,
        p + 1 == page_count(layout, n) ==> p * layout.page_size + items_in(layout, n, p) == n,
{
    let ps = layout.page_size;
    let pc = (n - 1) / ps + 1;
    vstd::arithmetic::div_mod::lemma_fundamental_div_mod(n - 1, ps);
    assert(p * ps <= (pc - 1) * ps) by (nonlinear_arith)
        requires
            p <= pc - 1,
            ps > 0,
    ;
    if p + 1 < pc {
        assert((p + 1) * ps <= (pc - 1) * ps) by (nonlinear_arith)
            requires
                p + 1 <= pc - 1,
                ps > 0,
        ;
        assert((p + 1) * ps == p * ps + ps) by (nonlinear_arith);
    }
    assert(ps * ((n - 1) / ps) == (pc - 1) * ps) by (nonlinear_arith)
        requires
            pc == (n - 1) / ps + 1,
    ;
}

/// The subcomponents before a later one take no fewer scalars.
pub proof fn lemma_runs_grow(layout: PageLayout, n: int, p: int, a: int, b: int)
    requires
        layout.page_size > 0,
        0 <= p < page_count(layout, n),
        0 <= a <= b,
    ensures
        0 <= runs_before(layout, n, p, a) <= runs_before(layout, n, p, b),
    decreases b,
{
    lemma_items_in(layout, n, p);
    if b > 0 {
        if a < b {
            lemma_runs_grow(layout, n, p, a, b - 1);
        } else {
            lemma_runs_grow(layout, n, p, a - 1, b - 1);
        }
        assert(layout.packing[b - 1] * items_in(layout, n, p) >= 0) by (nonlinear_arith)
            requires
                layout.packing[b - 1] >= 0,
                items_in(layout, n, p) >= 0,
        ;
    }
}

/// The pages before a later one take no fewer scalars.
pub proof fn lemma_pages_grow(layout: PageLayout, n: int, a: int, b: int)
    requires
        layout.page_size > 0,
        0 <= a <= b <= page_count(layout, n),
    ensures
        0 <= pages_before(layout, n, a) <= pages_before(layout, n, b),
    decreases b,
{
    if b > 0 {
        if a < b {
            lemma_pages_grow(layout, n, a, b - 1);
        } else {
            lemma_pages_grow(layout, n, a - 1, b - 1);
        }
        lemma_runs_grow(layout, n, b - 1, 0, layout.packing.len() as int);
    }
}

/// The widths before a later subcomponent add up to no less.
pub proof fn lemma_width_grows(packing: Seq<usize>, a: int, b: int)
    requires
        0 <= a <= b,
    ensures
        0 <= width_before(packing, a) <= width_before(packing, b),
    decreases b,
{
    if b > 0 {
        if a < b {
            lemma_width_grows(packing, a, b - 1);
        } else {
            lemma_width_grows(packing, a - 1, b - 1);
        }
    }
}

impl Layout {
    /// Whether page `p` is constant for subcomponent `sv`.
    pub fn constant(&self, sv: usize, p: usize) -> (r: bool)
        ensures
            r == is_constant(self@, sv as int, p as int),
    {
        sv < self.flags.len() && p < self.flags[sv].len() && self.flags[sv][p]
    }

    /// The number of items of page `p`.
    pub fn items(&self, n: usize, p: usize) -> (r: usize)
        requires
            self.page_size > 0,
            0 <= p < page_count(self@, n as int),
        ensures
            r == items_in(self@, n as int, p as int),
    {
        proof {
            lemma_items_in(self@, n as int, p as int);
        }
        let before: usize = p * self.page_size;
        if n - before < self.page_size {
            n - before
        } else {
            self.page_size
        }
    }

    /// The number of pages.
    pub fn pages(&self, n: usize) -> (r: usize)
        ensures
            r == page_count(self@, n as int),
    {
        if n == 0 || self.page_size == 0 {
            0
        } else {
            (n - 1) / self.page_size + 1
        }
    }

    /// Whether the widths of the subcomponents add up to `tuple_size`.
    fn widths_fit(&self, tuple_size: usize) -> (r: bool)
        ensures
            r == (width_before(self@.packing, self@.packing.len() as int) == tuple_size),
    {
        let mut sum: usize = 0;
        let mut sv: usize = 0;
        while sv < self.packing.len()
            invariant
                sv <= self.packing@.len(),
                sum == width_before(self.packing@, sv as int),
                sum <= tuple_size,
            decreases self.packing.len() - sv,
        {
            let w: usize = self.packing[sv];
            if w > tuple_size - sum {
                proof {
                    lemma_width_grows(self.packing@, sv + 1, self.packing@.len() as int);
                }
                return false;
            }
            sum = sum + w;
            sv = sv + 1;
        }
        sum == tuple_size
    }

    /// Whether each subcomponent has its flags.
    fn flags_fit(&self, n: usize) -> (r: bool)
        ensures
            r == flags_cover(self@, n as int, self@.packing.len() as int),
    {
        let pc: usize = self.pages(n);
        let mut sv: usize = 0;
        while sv < self.packing.len()
            invariant
                sv <= self.packing@.len(),
                pc == page_count(self@, n as int),
                flags_cover(self@, n as int, sv as int),
            decreases self.packing.len() - sv,
        {
            if sv >= self.flags.len() {
                assert(!(sv < self@.flags.len()));
                return false;
            }
            let have: usize = self.flags[sv].len();
            if have != 0 && have < pc {
                assert(self@.flags[sv as int].len() == have);
                return false;
            }
            assert(self@.flags[sv as int].len() == have);
            sv = sv + 1;
        }
        true
    }

    /// The number of raw scalars of page `p`, if it is at most `limit`.
    fn page_scalars(&self, n: usize, p: usize, limit: usize) -> (r: Option<usize>)
        requires
            self.page_size > 0,
            0 <= p < page_count(self@, n as int),
        ensures
            match r {
                Some(x) => x == page_len(self@, n as int, p as int) && x <= limit,
                None => page_len(self@, n as int, p as int) > limit,
            },
    {
        let items: usize = self.items(n, p);
        proof {
            lemma_items_in(self@, n as int, p as int);
        }
        let mut sum: usize = 0;
        let mut sv: usize = 0;
        while sv < self.packing.len()
            invariant
                sv <= self.packing@.len(),
                self.page_size > 0,
                0 <= p < page_count(self@, n as int),
                items == items_in(self@, n as int, p as int),
                items >= 1,
                sum == runs_before(self@, n as int, p as int, sv as int),
                sum <= limit,
            decreases self.packing.len() - sv,
        {
            let w: usize = self.packing[sv];
            let room: usize = limit - sum;
            let constant: bool = self.constant(sv, p);
            let fits: bool = if constant {
                w <= room
            } else {
                w <= room / items
            };
            proof {
                if !constant {
                    if w <= room / items {
                        assert(w * items <= room) by (nonlinear_arith)
                            requires
                                w <= room / items,
                                items >= 1,
                                room >= 0,
                                w >= 0,
                        ;
                    } else {
                        assert(w * items > room) by (nonlinear_arith)
                            requires
                                w > room / items,
                                items >= 1,
                                room >= 0,
                        ;
                    }
                }
            }
            if !fits {
                proof {
                    lemma_runs_grow(
                        self@,
                        n as int,
                        p as int,
                        sv + 1,
                        self.packing@.len() as int,
                    );
                }
                return None;
            }
            sum = sum + if constant {
                w
            } else {
                w * items
            };
            sv = sv + 1;
        }
        Some(sum)
    }

    /// Whether the pages take exactly `raw_len` raw scalars.
    fn pages_fit(&self, n: usize, raw_len: usize) -> (r: bool)
        requires
            n > 0 ==> self.page_size > 0,
        ensures
            r == (pages_before(self@, n as int, page_count(self@, n as int)) == raw_len),
    {
        let pc: usize = self.pages(n);
        let mut sum: usize = 0;
        let mut p: usize = 0;
        while p < pc
            invariant
                p <= pc,
                pc == page_count(self@, n as int),
                pc > 0 ==> self.page_size > 0,
                sum == pages_before(self@, n as int, p as int),
                sum <= raw_len,
            decreases pc - p,
        {
            match self.page_scalars(n, p, raw_len - sum) {
                Some(x) => {
                    sum = sum + x;
                },
                None => {
                    proof {
                        lemma_pages_grow(self@, n as int, p + 1, pc as int);
                    }
                    return false;
                },
            }
            p = p + 1;
        }
        sum == raw_len
    }

    /// Whether the layout fits the items and the raw run, and the error
    /// where it does not.
    pub fn check(&self, n: usize, tuple_size: usize, raw_len: usize) -> (r: Result<(), SchemaError>)
        ensures
            r == layout_check(self@, n as int, tuple_size as int, raw_len as int),
    {
        if tuple_size != 0 && n > usize::MAX / tuple_size {
            assert(n * tuple_size > usize::MAX) by (nonlinear_arith)
                requires
                    n > usize::MAX / tuple_size,
                    tuple_size > 0,
            ;
            return Err(SchemaError::OutOfRange);
        }
        proof {
            if tuple_size != 0 {
                assert(n * tuple_size <= usize::MAX) by (nonlinear_arith)
                    requires
                        n <= usize::MAX / tuple_size,
                        tuple_size > 0,
                ;
            } else {
                assert(n * tuple_size == 0) by (nonlinear_arith)
                    requires
                        tuple_size == 0,
                ;
            }
        }
        if n > 0 && self.page_size == 0 {
            return Err(SchemaError::OutOfRange);
        }
        if !self.widths_fit(tuple_size) {
            return Err(SchemaError::Inconsistent);
        }
        if n > 0 && !self.flags_fit(n) {
            return Err(SchemaError::Inconsistent);
        }
        if !self.pages_fit(n, raw_len) {
            return Err(SchemaError::Inconsistent);
        }
        Ok(())
    }
}

/// The page and the place in it of an item.
pub proof fn lemma_item_place(layout: PageLayout, n: int, j: int, p: int, i: int)
    requires
        layout.page_size > 0,
        0 <= j < n,
        j == p * layout.page_size + i,
        0 <= i < layout.page_size,
    ensures
        j / layout.page_size == p,
        j % layout.page_size == i,
        0 <= p < page_count(layout, n),
        i < items_in(layout, n, p),
{
    let ps = layout.page_size;
    vstd::arithmetic::div_mod::lemma_fundamental_div_mod_converse(j, ps, p, i);
    vstd::arithmetic::div_mod::lemma_div_is_ordered(j, n - 1, ps);
    assert(p >= 0) by (nonlinear_arith)
        requires
            p * ps + i >= 0,
            i < ps,
            ps > 0,
    ;
}

/// Each part of each item has its place within the raw run.
pub proof fn lemma_source_in_range(layout: PageLayout, n: int, j: int, sv: int, k: int)
    requires
        layout.page_size > 0,
        0 <= j < n,
        0 <= sv < layout.packing.len(),
        0 <= k < layout.packing[sv],
    ensures
        0 <= source_of(layout, n, j, sv, k) < pages_before(layout, n, page_count(layout, n)),
        source_of(layout, n, j, sv, k) < pages_before(layout, n, j / layout.page_size)
            + runs_before(layout, n, j / layout.page_size, sv + 1),
{
    let ps = layout.page_size;
    let p = j / ps;
    let i = j % ps;
    vstd::arithmetic::div_mod::lemma_fundamental_div_mod(j, ps);
    assert(j == p * ps + i) by (nonlinear_arith)
        requires
            j == ps * p + i,
    ;
    lemma_item_place(layout, n, j, p, i);
    lemma_items_in(layout, n, p);
    let w = layout.packing[sv] as int;
    let items = items_in(layout, n, p);
    if !is_constant(layout, sv, p) {
        assert(0 <= i * w + k < w * items) by (nonlinear_arith)
            requires
                0 <= i < items,
                0 <= k < w,
        ;
    }
    lemma_runs_grow(layout, n, p, 0, sv);
    lemma_runs_grow(layout, n, p, sv + 1, layout.packing.len() as int);
    lemma_pages_grow(layout, n, 0, p);
    lemma_pages_grow(layout, n, p + 1, page_count(layout, n));
}

/// The flat run of the tuples that a paged raw run holds, for a layout
/// that fits.
pub fn unpage<T: ConvertFromAll<K> + Copy, K: Copy>(
    layout: &Layout,
    raw: &Vec<K>,
    n: usize,
    tuple_size: usize,
) -> (r: Vec<T>)
    requires
        layout_check(layout@, n as int, tuple_size as int, raw@.len() as int) is Ok,
    ensures
        r@ == items_before::<T, K>(layout@, raw@, n as int, n as int),
{
    let mut out: Vec<T> = Vec::new();
    let mut j: usize = 0;
    let mut p: usize = 0;
    let mut i: usize = 0;
    let mut page_base: usize = 0;
    let subs: usize = layout.packing.len();
    // a vector is no longer than a machine word counts
    let total: usize = raw.len();
    while j < n
        invariant
            j <= n,
            raw@.len() <= usize::MAX,
            subs == layout.packing@.len(),
            n > 0 ==> layout.page_size > 0,
            pages_before(layout@, n as int, page_count(layout@, n as int)) == raw@.len(),
            j == p * layout.page_size + i,
            j < n ==> i < layout.page_size,
            page_base == pages_before(layout@, n as int, p as int),
            out@ == items_before::<T, K>(layout@, raw@, n as int, j as int),
        decreases n - j,
    {
        proof {
            lemma_item_place(layout@, n as int, j as int, p as int, i as int);
            lemma_items_in(layout@, n as int, p as int);
            lemma_pages_grow(layout@, n as int, p + 1, page_count(layout@, n as int));
            lemma_runs_grow(layout@, n as int, p as int, 0, subs as int);
        }
        let items: usize = layout.items(n, p);
        let mut run_base: usize = 0;
        let mut sv: usize = 0;
        let ghost done = out@;
        assert(item_parts::<T, K>(layout@, raw@, n as int, j as int, 0) =~= Seq::<T>::empty());
        assert(done + Seq::<T>::empty() =~= done);
        while sv < subs
            invariant
                sv <= subs,
                raw@.len() <= usize::MAX,
                subs == layout.packing@.len(),
                layout.page_size > 0,
                j < n,
                j as int / layout@.page_size == p,
                j as int % layout@.page_size == i,
                0 <= p < page_count(layout@, n as int),
                items == items_in(layout@, n as int, p as int),
                pages_before(layout@, n as int, page_count(layout@, n as int)) == raw@.len(),
                page_base == pages_before(layout@, n as int, p as int),
                page_base + page_len(layout@, n as int, p as int) <= raw@.len(),
                run_base == runs_before(layout@, n as int, p as int, sv as int),
                run_base <= page_len(layout@, n as int, p as int),
                out@ == done + item_parts::<T, K>(layout@, raw@, n as int, j as int, sv as int),
            decreases subs - sv,
        {
            let w: usize = layout.packing[sv];
            let constant: bool = layout.constant(sv, p);
            proof {
                lemma_runs_grow(layout@, n as int, p as int, sv + 1, subs as int);
                lemma_runs_grow(layout@, n as int, p as int, 0, sv as int);
                if w > 0 {
                    lemma_source_in_range(layout@, n as int, j as int, sv as int, 0);
                }
                if !constant {
                    assert(w * items >= 0) by (nonlinear_arith)
                        requires
                            w >= 0,
                            items >= 0,
                    ;
                    assert(i * w >= 0) by (nonlinear_arith)
                        requires
                            w >= 0,
                            i >= 0,
                    ;
                }
            }
            let ghost parts = out@;
            let mut k: usize = 0;
            while k < w
                invariant
                    k <= w,
                    raw@.len() <= usize::MAX,
                    sv < subs,
                    subs == layout.packing@.len(),
                    w == layout.packing@[sv as int],
                    constant == is_constant(layout@, sv as int, p as int),
                    layout.page_size > 0,
                    j < n,
                    j as int / layout@.page_size == p,
                    j as int % layout@.page_size == i,
                    pages_before(layout@, n as int, page_count(layout@, n as int)) == raw@.len(),
                    page_base == pages_before(layout@, n as int, p as int),
                    run_base == runs_before(layout@, n as int, p as int, sv as int),
                    page_base >= 0,
                    run_base >= 0,
                    !constant ==> i * w >= 0,
                    out@ == parts + Seq::new(
                        k as nat,
                        |k: int|
                            T::converted(raw@[source_of(layout@, n as int, j as int, sv as int, k)]),
                    ),
                decreases w - k,
            {
                proof {
                    lemma_source_in_range(layout@, n as int, j as int, sv as int, k as int);
                }
                let at: usize = if constant {
                    page_base + run_base + k
                } else {
                    page_base + run_base + i * w + k
                };
                out.push(T::convert_from(raw[at]));
                assert(out@ =~= parts + Seq::new(
                    (k + 1) as nat,
                    |k: int| T::converted(raw@[source_of(layout@, n as int, j as int, sv as int, k)]),
                ));
                k = k + 1;
            }
            proof {
                assert(out@ =~= done + item_parts::<T, K>(
                    layout@,
                    raw@,
                    n as int,
                    j as int,
                    sv + 1,
                ));
            }
            run_base = run_base + if constant {
                w
            } else {
                w * items
            };
            sv = sv + 1;
        }
        j = j + 1;
        i = i + 1;
        if i == layout.page_size {
            i = 0;
            page_base = page_base + run_base;
            p = p + 1;
            assert((p - 1) * layout.page_size + layout.page_size == p * layout.page_size)
                by (nonlinear_arith);
        }
    }
    out
}

} // verus!
