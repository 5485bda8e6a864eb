//! The generic gene layer: individual ranged parameters, flat-indexed
//! parameter holders, and the mutation engine that perturbs every gene of a
//! holder in place.

use vstd::prelude::*;

verus! {

/// Raw gene values are fixed-point fractions of `RAW_ONE`: a raw value `r`
/// stands for the real number `r / RAW_ONE`, so the unit interval [0, 1] is
/// represented by [0, RAW_ONE].
pub const RAW_ONE: u32 = 1_000_000;

/// Largest magnitude a range bound may have, in the same micro-unit scale;
/// keeps the scaling arithmetic comfortably inside `i64`.
pub const RANGE_LIMIT: i64 = 1_000_000_000;

/// A raw gene value clamped into [0, RAW_ONE].
pub open spec fn clamp_raw(v: int) -> int {
    if v < 0 {
        0
    } else if v > RAW_ONE {
        RAW_ONE as int
    } else {
        v
    }
}

/// Fixed-point scaling of a raw gene into its range:
/// `min + (max - min) * raw / RAW_ONE`.
pub open spec fn scaled_spec(min: int, max: int, raw: int) -> int {
    min + (max - min) * raw / (RAW_ONE as int)
}

/// Clamps an arbitrary micro-unit value into [0, RAW_ONE].
pub fn clamp_to_raw(v: i64) -> (r: u32)
    ensures
        r as int == clamp_raw(v as int),
{
    if v < 0 {
        0
    } else if v > RAW_ONE as i64 {
        RAW_ONE
    } else {
        v as u32
    }
}

/// An individual parameter with a specified range. The raw value is always
/// kept in [0, RAW_ONE]; only the scaled value carries physical units.
pub trait RangedParam: Sized {
    /// The parameter's internal invariant: its raw value is in range.
    spec fn inv(&self) -> bool;

    /// The current raw gene value.
    spec fn raw(&self) -> int;

    /// (min, max) of the scaled range, in micro-units.
    spec fn range_spec(&self) -> (int, int);

    /// A well-formed parameter has a clamped raw value and modest range
    /// bounds.
    proof fn lemma_inv(&self)
        requires
            self.inv(),
        ensures
            0 <= self.raw() <= RAW_ONE as int,
            -(RANGE_LIMIT as int) <= self.range_spec().0,
            self.range_spec().0 <= self.range_spec().1,
            self.range_spec().1 <= RANGE_LIMIT as int,
    ;

    /// (min, max) of the scaled range, in micro-units.
    fn range(&self) -> (r: (i64, i64))
        ensures
            r.0 as int == self.range_spec().0,
            r.1 as int == self.range_spec().1,
    ;

    /// The current raw gene value.
    fn get(&self) -> (r: u32)
        requires
            self.inv(),
        ensures
            r as int == self.raw(),
    ;

    /// Overwrites the raw gene value, clamping it into [0, RAW_ONE].
    fn set(&mut self, v: i64)
        requires
            old(self).inv(),
        ensures
            final(self).inv(),
            final(self).raw() == clamp_raw(v as int),
            final(self).range_spec() == old(self).range_spec(),
    ;

    /// The scaled value: `min + (max - min) * raw / RAW_ONE`.
    fn get_scaled(&self) -> (r: i64)
        requires
            self.inv(),
        ensures
            r as int == scaled_spec(self.range_spec().0, self.range_spec().1, self.raw()),
    {
        proof {
            self.lemma_inv();
        }
        let (min, max) = self.range();
        let raw = self.get();
        let diff = (max - min) as u64;
        proof {
            assert(diff * (raw as u64) <= 2_000_000_000_000_000) by (nonlinear_arith)
                requires
                    diff <= 2_000_000_000,
                    raw <= 1_000_000,
            ;
        }
        let prod = diff * (raw as u64);
        let q = prod / (RAW_ONE as u64);
        assert(q <= 2_000_000_000u64) by (nonlinear_arith)
            requires
                prod <= 2_000_000_000_000_000u64,
                q == prod / 1_000_000u64,
        ;
        min + q as i64
    }

    /// Adds an offset to the raw gene value, clamping the result into
    /// [0, RAW_ONE].
    fn add_assign(&mut self, offset: i64)
        requires
            old(self).inv(),
        ensures
            final(self).inv(),
            final(self).raw() == clamp_raw(old(self).raw() + offset as int),
            final(self).range_spec() == old(self).range_spec(),
    {
        proof {
            self.lemma_inv();
        }
        let cur = self.get();
        let capped = if offset > RAW_ONE as i64 {
            RAW_ONE as i64
        } else if offset < -(RAW_ONE as i64) {
            -(RAW_ONE as i64)
        } else {
            offset
        };
        self.set(cur as i64 + capped);
    }
}

/// An entity with multiple parameters, addressed through one flat index
/// space `0 .. count`. Out-of-range indices are contract violations: every
/// operation requires its index to be below the holder's count.
pub trait ParamHolder: Sized {
    /// The holder's internal invariant: every gene is in range.
    spec fn inv(&self) -> bool;

    /// Number of genes in the flat index space.
    spec fn count_spec(&self) -> int;

    /// The raw value of gene `i`.
    spec fn raw_at(&self, i: int) -> int;

    /// (min, max) of gene `i`'s scaled range, in micro-units.
    spec fn range_at(&self, i: int) -> (int, int);

    /// A well-formed holder keeps every gene clamped.
    proof fn lemma_inv(&self)
        requires
            self.inv(),
        ensures
            0 <= self.count_spec(),
            forall|i: int|
                0 <= i < self.count_spec() ==> 0 <= #[trigger] self.raw_at(i) <= RAW_ONE as int,
    ;

    /// Number of genes in the flat index space.
    fn param_count(&self) -> (n: usize)
        ensures
            n as int == self.count_spec(),
    ;

    /// The raw value of gene `index`.
    fn get_param(&self, index: usize) -> (r: u32)
        requires
            self.inv(),
            (index as int) < self.count_spec(),
        ensures
            r as int == self.raw_at(index as int),
    ;

    /// Adds `offset` to gene `index`, clamping into [0, RAW_ONE]; all other
    /// genes and every range are unchanged.
    fn add_to_param(&mut self, index: usize, offset: i64)
        requires
            old(self).inv(),
            (index as int) < old(self).count_spec(),
        ensures
            final(self).inv(),
            final(self).count_spec() == old(self).count_spec(),
            final(self).raw_at(index as int) == clamp_raw(
                old(self).raw_at(index as int) + offset as int,
            ),
            forall|j: int|
                0 <= j < old(self).count_spec() && j != index as int
                    ==> #[trigger] final(self).raw_at(j) == old(self).raw_at(j),
            forall|j: int|
                0 <= j < old(self).count_spec()
                    ==> #[trigger] final(self).range_at(j) == old(self).range_at(j),
    ;
}

/// Collection of related parameters in multiple dimensions.
pub trait ParamSet<P: RangedParam>: ParamHolder + Default {

}

/// Three related parameters composed as one flat index space (x, y, z).
#[derive(Clone, Copy, Default)]
pub struct ParamSet3d<P: RangedParam> {
    pub x: P,
    pub y: P,
    pub z: P,
}

impl<P: RangedParam + Default> ParamSet<P> for ParamSet3d<P> {

}

impl<P: RangedParam> ParamHolder for ParamSet3d<P> {
    open spec fn inv(&self) -> bool {
        self.x.inv() && self.y.inv() && self.z.inv()
    }

    open spec fn count_spec(&self) -> int {
        3
    }

    open spec fn raw_at(&self, i: int) -> int {
        if i == 0 {
            self.x.raw()
        } else if i == 1 {
            self.y.raw()
        } else {
            self.z.raw()
        }
    }

    open spec fn range_at(&self, i: int) -> (int, int) {
        if i == 0 {
            self.x.range_spec()
        } else if i == 1 {
            self.y.range_spec()
        } else {
            self.z.range_spec()
        }
    }

    proof fn lemma_inv(&self) {
        self.x.lemma_inv();
        self.y.lemma_inv();
        self.z.lemma_inv();
    }

    fn param_count(&self) -> (n: usize) {
        3
    }

    fn get_param(&self, index: usize) -> (r: u32) {
        if index == 0 {
            self.x.get()
        } else if index == 1 {
            self.y.get()
        } else {
            self.z.get()
        }
    }

    fn add_to_param(&mut self, index: usize, offset: i64) {
        if index == 0 {
            self.x.add_assign(offset);
        } else if index == 1 {
            self.y.add_assign(offset);
        } else {
            self.z.add_assign(offset);
        }
    }
}

impl<P: RangedParam> ParamSet3d<P> {
    pub fn new(x: P, y: P, z: P) -> (s: Self)
        ensures
            s.x == x,
            s.y == y,
            s.z == z,
    {
        Self { x, y, z }
    }

    /// The three scaled component values.
    pub fn components_scaled(&self) -> (r: (i64, i64, i64))
        requires
            self.inv(),
        ensures
            r.0 as int == scaled_spec(
                self.x.range_spec().0,
                self.x.range_spec().1,
                self.x.raw(),
            ),
            r.1 as int == scaled_spec(
                self.y.range_spec().0,
                self.y.range_spec().1,
                self.y.raw(),
            ),
            r.2 as int == scaled_spec(
                self.z.range_spec().0,
                self.z.range_spec().1,
                self.z.raw(),
            ),
    {
        (self.x.get_scaled(), self.y.get_scaled(), self.z.get_scaled())
    }
}

/// A parameter whose range is chosen when the value is made, for gene
/// roles that are not fixed at compile time.
#[derive(Clone, Copy, Default)]
pub struct CustomParam {
    pub raw: u32,
    pub min: i64,
    pub max: i64,
}

impl CustomParam {
    /// A parameter scaled into [min, max], with `raw` clamped into
    /// [0, RAW_ONE].
    pub fn new(min: i64, max: i64, raw: i64) -> (s: Self)
        requires
            -RANGE_LIMIT <= min <= max <= RANGE_LIMIT,
        ensures
            s.inv(),
            s.raw() == clamp_raw(raw as int),
            s.range_spec() == (min as int, max as int),
    {
        CustomParam { raw: clamp_to_raw(raw), min, max }
    }
}

impl RangedParam for CustomParam {
    open spec fn inv(&self) -> bool {
        self.raw <= RAW_ONE && -RANGE_LIMIT <= self.min <= self.max <= RANGE_LIMIT
    }

    open spec fn raw(&self) -> int {
        self.raw as int
    }

    open spec fn range_spec(&self) -> (int, int) {
        (self.min as int, self.max as int)
    }

    proof fn lemma_inv(&self) {
    }

    fn range(&self) -> (r: (i64, i64)) {
        (self.min, self.max)
    }

    fn get(&self) -> (r: u32) {
        self.raw
    }

    fn set(&mut self, v: i64) {
        self.raw = clamp_to_raw(v);
    }
}

/// A mutation generator: a source of offsets to add to raw gene values.
/// Each generator declares the largest magnitude it may yield and keeps a
/// ghost log of every offset it has yielded, so that a mutation pass can
/// state exactly how each gene moved. A deterministic generator also
/// declares the one offset it is bound to yield; one fixed to offset 0 is
/// the null generator.
pub trait MutationGen: Sized {
    /// The offset this generator is bound to yield on every draw, if it
    /// is deterministic; `None` for a generator whose draws may vary.
    spec fn fixed_offset(&self) -> Option<i64>;

    /// Largest magnitude an offset from this generator may have.
    spec fn max_off(&self) -> int;

    /// Every offset this generator has yielded, oldest first.
    spec fn drawn(&self) -> Seq<i64>;

    /// Draws the next offset and appends it to the log.
    fn gen(&mut self) -> (r: i64)
        ensures
            final(self).drawn() == old(self).drawn().push(r),
            final(self).fixed_offset() == old(self).fixed_offset(),
            final(self).max_off() == old(self).max_off(),
            old(self).fixed_offset() matches Some(v) ==> r == v,
            -old(self).max_off() <= r as int <= old(self).max_off(),
    ;
}

/// A mutation generator that always yields the same offset; a zero offset
/// makes it the null generator.
pub struct ConstGen {
    pub offset: i64,
    pub history: Ghost<Seq<i64>>,
}

impl ConstGen {
    /// A generator that always yields `offset`.
    pub fn new(offset: i64) -> (c: ConstGen)
        ensures
            c.offset == offset,
            c.drawn() == Seq::<i64>::empty(),
    {
        ConstGen { offset, history: Ghost(Seq::empty()) }
    }
}

impl MutationGen for ConstGen {
    open spec fn fixed_offset(&self) -> Option<i64> {
        Some(self.offset)
    }

    open spec fn max_off(&self) -> int {
        if self.offset >= 0 {
            self.offset as int
        } else {
            -(self.offset as int)
        }
    }

    open spec fn drawn(&self) -> Seq<i64> {
        self.history@
    }

    fn gen(&mut self) -> (r: i64)
        ensures
            r == old(self).offset,
            final(self).offset == old(self).offset,
    {
        let r = self.offset;
        proof {
            self.history@ = self.history@.push(r);
        }
        r
    }
}

/// A holder's flat parameter space, captured once before a mutation pass.
pub struct GenericParams<PH: ParamHolder> {
    pub n: usize,
    pub marker: core::marker::PhantomData<PH>,
}

impl<PH: ParamHolder> GenericParams<PH> {
    pub fn new(holder: &PH) -> (s: Self)
        ensures
            s.n as int == holder.count_spec(),
    {
        let n = holder.param_count();
        Self { n, marker: core::marker::PhantomData }
    }
}

/// Applies one offset drawn from `mut_gen` to every gene of
/// `param_holder`, in index order: gene `j` receives the `j`-th draw of
/// this pass and becomes `clamp_raw(old + draw)`. Gene count and ranges
/// are unchanged; exactly one draw is made per gene; a deterministic
/// generator moves every gene by its fixed offset, so the null generator
/// leaves every gene as it was.
pub fn mutate<PH: ParamHolder, MG: MutationGen>(param_holder: &mut PH, mut_gen: &mut MG)
    requires
        old(param_holder).inv(),
    ensures
        final(param_holder).inv(),
        final(param_holder).count_spec() == old(param_holder).count_spec(),
        forall|j: int|
            0 <= j < old(param_holder).count_spec()
                ==> 0 <= #[trigger] final(param_holder).raw_at(j) <= RAW_ONE as int,
        forall|j: int|
            0 <= j < old(param_holder).count_spec() ==> #[trigger] final(param_holder).range_at(j)
                == old(param_holder).range_at(j),
        final(mut_gen).fixed_offset() == old(mut_gen).fixed_offset(),
        final(mut_gen).max_off() == old(mut_gen).max_off(),
        final(mut_gen).drawn().len() == old(mut_gen).drawn().len() + old(
            param_holder,
        ).count_spec(),
        forall|j: int|
            0 <= j < old(mut_gen).drawn().len() ==> #[trigger] final(mut_gen).drawn()[j] == old(
                mut_gen,
            ).drawn()[j],
        forall|j: int|
            0 <= j < old(param_holder).count_spec() ==> #[trigger] final(param_holder).raw_at(j)
                == clamp_raw(
                old(param_holder).raw_at(j) + final(mut_gen).drawn()[old(mut_gen).drawn().len()
                    + j] as int,
            ),
        forall|j: int|
            old(mut_gen).drawn().len() <= j < final(mut_gen).drawn().len()
                ==> -old(mut_gen).max_off() <= #[trigger] final(mut_gen).drawn()[j] as int <= old(
                mut_gen,
            ).max_off(),
        old(mut_gen).fixed_offset() matches Some(v) ==> forall|j: int|
            0 <= j < old(param_holder).count_spec() ==> #[trigger] final(param_holder).raw_at(j)
                == clamp_raw(old(param_holder).raw_at(j) + v as int),
        old(mut_gen).fixed_offset() == Some(0i64) ==> forall|j: int|
            0 <= j < old(param_holder).count_spec() ==> #[trigger] final(param_holder).raw_at(j)
                == old(param_holder).raw_at(j),
{
    let params = GenericParams::new(param_holder);
    let ghost orig = *param_holder;
    let ghost orig_gen = *mut_gen;
    let mut i: usize = 0;
    while i < params.n
        invariant
            params.n as int == orig.count_spec(),
            i <= params.n,
            param_holder.inv(),
            param_holder.count_spec() == orig.count_spec(),
            orig.inv(),
            forall|j: int|
                0 <= j < orig.count_spec() ==> #[trigger] param_holder.range_at(j) == orig.range_at(
                    j,
                ),
            forall|j: int|
                i as int <= j < orig.count_spec() ==> #[trigger] param_holder.raw_at(j)
                    == orig.raw_at(j),
            forall|j: int|
                0 <= j < i as int ==> 0 <= #[trigger] param_holder.raw_at(j) <= RAW_ONE as int,
            mut_gen.fixed_offset() == orig_gen.fixed_offset(),
            mut_gen.max_off() == orig_gen.max_off(),
            mut_gen.drawn().len() == orig_gen.drawn().len() + i as int,
            forall|j: int|
                0 <= j < orig_gen.drawn().len() ==> #[trigger] mut_gen.drawn()[j]
                    == orig_gen.drawn()[j],
            forall|j: int|
                0 <= j < i as int ==> #[trigger] param_holder.raw_at(j) == clamp_raw(
                    orig.raw_at(j) + mut_gen.drawn()[orig_gen.drawn().len() + j] as int,
                ),
            forall|j: int|
                orig_gen.drawn().len() <= j < mut_gen.drawn().len() ==> -orig_gen.max_off()
                    <= #[trigger] mut_gen.drawn()[j] as int <= orig_gen.max_off(),
            orig_gen.fixed_offset() matches Some(v) ==> forall|j: int|
                0 <= j < i as int ==> #[trigger] param_holder.raw_at(j) == clamp_raw(
                    orig.raw_at(j) + v as int,
                ),
            orig_gen.fixed_offset() == Some(0i64) ==> forall|j: int|
                0 <= j < i as int ==> #[trigger] param_holder.raw_at(j) == orig.raw_at(j),
        decreases params.n - i,
    {
        proof {
            orig.lemma_inv();
        }
        let off = mut_gen.gen();
        param_holder.add_to_param(i, off);
        i += 1;
    }
    proof {
        orig.lemma_inv();
    }
}

} // verus!
