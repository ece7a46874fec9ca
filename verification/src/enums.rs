//! Enumerated-value mapping: declared variants to primitive values.
//!
//! Values are assigned by walking declared variants in order: an explicit
//! literal is reserved as written; every other variant receives the lowest
//! unused non-negative integer in ascending order, skipping values claimed
//! by literals.  At most one variant may catch unmatched values, either
//! discarding them (catch-all) or keeping the raw value (catch-value); when
//! none is marked, the last declared variant catches by default, discarding.
//! Encoding a catch-all variant yields its own assigned value, which is
//! lossy for the unmatched values it absorbed; a catch-value variant encodes
//! the value it kept.

use vstd::prelude::*;
use vstd::arithmetic::power2::pow2;
use crate::schema::{CatchMode, VariantSchema};

verus! {

/// The value a record carries for an enum field: the decoded variant index
/// and, for a catch-value variant, the raw primitive it keeps.
#[derive(Clone, PartialEq, Eq, Debug)]
pub struct EnumValue {
    /// Index of the variant in declaration order.
    pub variant: usize,
    /// The kept raw value, present exactly on a catch-value variant.
    pub raw: Option<u64>,
}

/// The variant declares `x` as its literal value.
pub open spec fn spec_lit_matches(v: VariantSchema, x: int) -> bool {
    match v.literal {
        Some(l) => l as int == x,
        None => false,
    }
}

/// Some variant declares `x` as its literal value.
pub open spec fn spec_literal_used(vars: Seq<VariantSchema>, x: int) -> bool {
    exists|i: int| 0 <= i < vars.len() && #[trigger] spec_lit_matches(vars[i], x)
}

/// `x` is the lowest value at or above `c` that no literal claims.
pub open spec fn spec_free_from(vars: Seq<VariantSchema>, c: int, x: int) -> bool {
    x >= c && !spec_literal_used(vars, x) && (forall|y: int|
        c <= y < x ==> spec_literal_used(vars, y))
}

/// The lowest value at or above `c` that no literal claims.
pub open spec fn spec_next_free(vars: Seq<VariantSchema>, c: int) -> int {
    choose|x: int| spec_free_from(vars, c, x)
}

/// The auto-assignment counter after the first `n` variants: a literal
/// leaves it alone, an auto-assigned variant moves it past its value.
pub open spec fn spec_counter_after(vars: Seq<VariantSchema>, n: int) -> int
    decreases n,
{
    if n <= 0 {
        0
    } else {
        let c = spec_counter_after(vars, n - 1);
        match vars[n - 1].literal {
            Some(_) => c,
            None => spec_next_free(vars, c) + 1,
        }
    }
}

/// The primitive value assigned to variant `i`: its literal, or the lowest
/// unused value when it has none.
pub open spec fn spec_assigned(vars: Seq<VariantSchema>, i: int) -> int {
    match vars[i].literal {
        Some(x) => x as int,
        None => spec_next_free(vars, spec_counter_after(vars, i)),
    }
}

/// The variant catches unmatched values.
pub open spec fn spec_is_catch(v: VariantSchema) -> bool {
    v.catch != CatchMode::Normal
}

/// The index of the catching variant: the marked one, or the last declared
/// variant by default.
pub open spec fn spec_catch_index(vars: Seq<VariantSchema>) -> int {
    if exists|i: int| 0 <= i < vars.len() && spec_is_catch(#[trigger] vars[i]) {
        choose|i: int| 0 <= i < vars.len() && spec_is_catch(#[trigger] vars[i])
    } else {
        vars.len() - 1
    }
}

/// The catching variant keeps the raw value rather than discarding it.
pub open spec fn spec_catch_keeps_value(vars: Seq<VariantSchema>) -> bool {
    vars[spec_catch_index(vars)].catch == CatchMode::CatchValue
}

/// The mapping is consistent for a field of `w` bits: variants exist, no
/// value is claimed twice, at most one variant catches, and every assigned
/// value fits the width.
pub open spec fn spec_enum_ok(vars: Seq<VariantSchema>, w: int) -> bool {
    1 <= vars.len() && vars.len() < 0x1_0000_0000 && 0 < w <= 32 && (forall|i: int, j: int|
        0 <= i < j < vars.len() ==> !(spec_is_catch(#[trigger] vars[i]) && spec_is_catch(
            #[trigger] vars[j],
        ))) && (forall|i: int, j: int|
        0 <= i < j < vars.len() && vars[i].literal is Some && vars[j].literal is Some
            ==> (#[trigger] vars[i].literal).unwrap() != (#[trigger] vars[j].literal).unwrap())
        && (forall|i: int|
        0 <= i < vars.len() ==> #[trigger] spec_assigned(vars, i) < pow2(w as nat) as int)
}

/// A record value for the enum is well formed: a catch-value variant keeps
/// an unmatched raw value of the right width, every other variant keeps
/// nothing.
pub open spec fn spec_enum_value_ok(vars: Seq<VariantSchema>, w: int, ev: EnumValue) -> bool {
    0 <= ev.variant < vars.len() && if vars[ev.variant as int].catch == CatchMode::CatchValue {
        match ev.raw {
            Some(r) => (r as int) < pow2(w as nat) as int && (forall|j: int|
                0 <= j < vars.len() && vars[j].catch != CatchMode::CatchValue
                    ==> #[trigger] spec_assigned(vars, j) != r as int),
            None => false,
        }
    } else {
        ev.raw is None
    }
}

/// The primitive value an enum record value encodes to.
pub open spec fn spec_enum_encode(vars: Seq<VariantSchema>, ev: EnumValue) -> int {
    if vars[ev.variant as int].catch == CatchMode::CatchValue {
        ev.raw.unwrap() as int
    } else {
        spec_assigned(vars, ev.variant as int)
    }
}

/// A non-catch-value variant is matched by `raw`.
pub open spec fn spec_variant_matches(vars: Seq<VariantSchema>, raw: int, i: int) -> bool {
    0 <= i < vars.len() && vars[i].catch != CatchMode::CatchValue && spec_assigned(vars, i) == raw
}

/// The record value a primitive decodes to: the variant whose assigned
/// value matches, or the catching variant when none does.
pub open spec fn spec_enum_decode(vars: Seq<VariantSchema>, raw: int) -> EnumValue {
    if exists|i: int| spec_variant_matches(vars, raw, i) {
        EnumValue { variant: (choose|i: int| spec_variant_matches(vars, raw, i)) as usize, raw: None }
    } else {
        EnumValue {
            variant: spec_catch_index(vars) as usize,
            raw: if spec_catch_keeps_value(vars) {
                Some(raw as u64)
            } else {
                None
            },
        }
    }
}

/// Tests whether any literal claims `x`.
fn literal_used_exec(vars: &Vec<VariantSchema>, x: u64) -> (r: bool)
    ensures
        r == spec_literal_used(vars@, x as int),
{
    let n = vars.len();
    let mut i: usize = 0;
    while i < n
        invariant
            i <= n,
            n == vars@.len(),
            forall|k: int| 0 <= k < i ==> !spec_lit_matches(#[trigger] vars@[k], x as int),
        decreases n - i,
    {
        let hit = match vars[i].literal {
            Some(l) => l == x,
            None => false,
        };
        if hit {
            proof {
                assert(spec_lit_matches(vars@[i as int], x as int));
            }
            return true;
        }
        i = i + 1;
    }
    false
}

/// Finds the lowest unclaimed value at or above `c`.
fn next_free_exec(vars: &Vec<VariantSchema>, c: u64) -> (r: u64)
    requires
        c <= 0x2_0000_0000,
        forall|x: int| spec_literal_used(vars@, x) ==> 0 <= x < 0x1_0000_0000,
    ensures
        r as int == spec_next_free(vars@, c as int),
        spec_free_from(vars@, c as int, r as int),
        r <= if c <= 0x1_0000_0000 {
            0x1_0000_0000u64
        } else {
            c
        },
{
    let mut r = c;
    let mut used = literal_used_exec(vars, r);
    while used
        invariant
            c <= r,
            r <= 0x2_0000_0000,
            used == spec_literal_used(vars@, r as int),
            used ==> r < 0x1_0000_0000,
            r as int <= if c <= 0x1_0000_0000 {
                0x1_0000_0000
            } else {
                c as int
            },
            forall|y: int| c <= y < r ==> spec_literal_used(vars@, y),
            forall|x: int| spec_literal_used(vars@, x) ==> 0 <= x < 0x1_0000_0000,
        decreases 0x1_0000_0000 - r,
    {
        r = r + 1;
        used = literal_used_exec(vars, r);
    }
    proof {
        lemma_next_free_eq(vars@, c as int, r as int);
    }
    r
}

/// Assigns every variant its primitive value: literals as declared, the
/// rest filled greedily with the lowest unused values in ascending order.
pub fn assign_values(vars: &Vec<VariantSchema>) -> (r: Vec<u64>)
    requires
        vars@.len() < 0x1_0000_0000,
        forall|x: int| spec_literal_used(vars@, x) ==> 0 <= x < 0x1_0000_0000,
    ensures
        r@.len() == vars@.len(),
        forall|i: int| 0 <= i < vars@.len() ==> r@[i] as int == spec_assigned(vars@, i),
{
    let n = vars.len();
    let mut out: Vec<u64> = Vec::new();
    let mut c: u64 = 0;
    let mut i: usize = 0;
    while i < n
        invariant
            i <= n,
            n == vars@.len(),
            n < 0x1_0000_0000,
            out@.len() == i,
            c as int == spec_counter_after(vars@, i as int),
            c as int <= 0x1_0000_0000 + i,
            forall|k: int| 0 <= k < i ==> out@[k] as int == spec_assigned(vars@, k),
            forall|x: int| spec_literal_used(vars@, x) ==> 0 <= x < 0x1_0000_0000,
        decreases n - i,
    {
        match vars[i].literal {
            Some(x) => {
                out.push(x);
            },
            None => {
                let v = next_free_exec(vars, c);
                out.push(v);
                c = v + 1;
            },
        };
        i = i + 1;
    }
    out
}

/// Finds the catching variant: the marked one, or the last by default.
fn catch_index_exec(vars: &Vec<VariantSchema>) -> (r: usize)
    requires
        vars@.len() >= 1,
        forall|i: int, j: int|
            0 <= i < j < vars@.len() ==> !(spec_is_catch(#[trigger] vars@[i]) && spec_is_catch(
                #[trigger] vars@[j],
            )),
    ensures
        r as int == spec_catch_index(vars@),
        r < vars@.len(),
{
    let n = vars.len();
    let mut i: usize = 0;
    while i < n
        invariant
            i <= n,
            n == vars@.len(),
            forall|k: int| 0 <= k < i ==> !spec_is_catch(#[trigger] vars@[k]),
            forall|i2: int, j2: int|
                0 <= i2 < j2 < vars@.len() ==> !(spec_is_catch(#[trigger] vars@[i2])
                    && spec_is_catch(#[trigger] vars@[j2])),
        decreases n - i,
    {
        let is_catch = match vars[i].catch {
            CatchMode::Normal => false,
            _ => true,
        };
        if is_catch {
            proof {
                assert(spec_is_catch(vars@[i as int]));
                let m = choose|k: int| 0 <= k < vars@.len() && spec_is_catch(#[trigger] vars@[k]);
                if m < i as int {
                    assert(!(spec_is_catch(vars@[m]) && spec_is_catch(vars@[i as int])));
                }
                if m > i as int {
                    assert(!(spec_is_catch(vars@[i as int]) && spec_is_catch(vars@[m])));
                }
            }
            return i;
        }
        i = i + 1;
    }
    proof {
        assert(!(exists|k: int| 0 <= k < vars@.len() && spec_is_catch(#[trigger] vars@[k])));
    }
    n - 1
}

/// Checks every mapping rule for a field of `w` bits.
pub fn validate_enum(vars: &Vec<VariantSchema>, w: usize) -> (r: bool)
    ensures
        r == spec_enum_ok(vars@, w as int),
{
    let n = vars.len();
    if n == 0 || (n as u64) >= 0x1_0000_0000u64 || w == 0 || w > 32 {
        return false;
    }
    proof {
        crate::bits::lemma_shl1_is_pow2(w as u64);
    }
    let limit: u64 = 1u64 << (w as u64);
    let mut i: usize = 0;
    while i < n
        invariant
            i <= n,
            n == vars@.len(),
            0 < w <= 32,
            limit as int == pow2(w as nat) as int,
            forall|k: int|
                0 <= k < i ==> spec_lit_in_limit(#[trigger] vars@[k], limit as int),
        decreases n - i,
    {
        match vars[i].literal {
            Some(x) => {
                if x >= limit {
                    proof {
                        assert(spec_assigned(vars@, i as int) == x as int);
                    }
                    return false;
                }
            },
            None => {
            },
        };
        i = i + 1;
    }
    proof {
        assert forall|x: int| spec_literal_used(vars@, x) implies 0 <= x < 0x1_0000_0000 by {
            let k = choose|k: int| 0 <= k < vars@.len() && #[trigger] spec_lit_matches(vars@[k], x);
            assert(spec_lit_in_limit(vars@[k], limit as int));
            if w < 32 {
                vstd::arithmetic::power2::lemma_pow2_strictly_increases(w as nat, 32);
            }
            vstd::arithmetic::power2::lemma2_to64();
        }
    }
    let mut i2: usize = 0;
    while i2 < n
        invariant
            i2 <= n,
            n == vars@.len(),
            forall|a: int, b: int|
                0 <= a < b < vars@.len() && a < i2 && vars@[a].literal is Some
                    && vars@[b].literal is Some ==> (#[trigger] vars@[a].literal).unwrap() != (
                #[trigger] vars@[b].literal).unwrap(),
            forall|a: int, b: int|
                0 <= a < b < vars@.len() && a < i2 ==> !(spec_is_catch(#[trigger] vars@[a])
                    && spec_is_catch(#[trigger] vars@[b])),
        decreases n - i2,
    {
        let a_catch = match vars[i2].catch {
            CatchMode::Normal => false,
            _ => true,
        };
        let a_lit = vars[i2].literal;
        let mut j: usize = i2 + 1;
        while j < n
            invariant
                i2 < j <= n || (i2 + 1 == j && j <= n),
                i2 < n,
                j >= i2 + 1,
                j <= n,
                n == vars@.len(),
                a_catch == spec_is_catch(vars@[i2 as int]),
                a_lit == vars@[i2 as int].literal,
                forall|b: int|
                    i2 < b < j && vars@[i2 as int].literal is Some && (#[trigger] vars@[b]).literal
                        is Some ==> vars@[i2 as int].literal.unwrap() != vars@[b].literal.unwrap(),
                forall|b: int|
                    i2 < b < j ==> !(spec_is_catch(vars@[i2 as int]) && spec_is_catch(
                        #[trigger] vars@[b],
                    )),
            decreases n - j,
        {
            let b_catch = match vars[j].catch {
                CatchMode::Normal => false,
                _ => true,
            };
            if a_catch && b_catch {
                return false;
            }
            let dup = match (a_lit, vars[j].literal) {
                (Some(x), Some(y)) => x == y,
                _ => false,
            };
            if dup {
                return false;
            }
            j = j + 1;
        }
        i2 = i2 + 1;
    }
    let assigned = assign_values(vars);
    let mut i3: usize = 0;
    while i3 < n
        invariant
            i3 <= n,
            n == vars@.len(),
            n < 0x1_0000_0000,
            limit as int == pow2(w as nat) as int,
            assigned@.len() == n,
            forall|k: int| 0 <= k < n ==> assigned@[k] as int == spec_assigned(vars@, k),
            forall|k: int| 0 <= k < i3 ==> spec_assigned(vars@, k) < pow2(w as nat) as int,
        decreases n - i3,
    {
        if assigned[i3] >= limit {
            return false;
        }
        i3 = i3 + 1;
    }
    true
}

/// The variant's literal, when it has one, lies below `limit`.
pub open spec fn spec_lit_in_limit(v: VariantSchema, limit: int) -> bool {
    match v.literal {
        Some(x) => (x as int) < limit,
        None => true,
    }
}

/// Encodes a well-formed enum record value to its primitive.
pub fn encode_variant(vars: &Vec<VariantSchema>, w: usize, ev: &EnumValue) -> (r: u64)
    requires
        spec_enum_ok(vars@, w as int),
        spec_enum_value_ok(vars@, w as int, *ev),
    ensures
        r as int == spec_enum_encode(vars@, *ev),
        (r as int) < pow2(w as nat) as int,
{
    proof {
        assert forall|x: int| spec_literal_used(vars@, x) implies 0 <= x < 0x1_0000_0000 by {
            let k = choose|k: int| 0 <= k < vars@.len() && #[trigger] spec_lit_matches(vars@[k], x);
            assert(spec_assigned(vars@, k) == x);
            if (w as int) < 32 {
                vstd::arithmetic::power2::lemma_pow2_strictly_increases(w as nat, 32);
            }
            vstd::arithmetic::power2::lemma2_to64();
        }
    }
    let keep = match vars[ev.variant].catch {
        CatchMode::CatchValue => true,
        _ => false,
    };
    if keep {
        match ev.raw {
            Some(x) => x,
            None => 0,
        }
    } else {
        let assigned = assign_values(vars);
        assigned[ev.variant]
    }
}

/// Decodes a primitive to its enum record value: the matching variant, or
/// the catching variant when none matches.
pub fn decode_variant(vars: &Vec<VariantSchema>, w: usize, raw: u64) -> (r: EnumValue)
    requires
        spec_enum_ok(vars@, w as int),
    ensures
        r == spec_enum_decode(vars@, raw as int),
{
    proof {
        assert forall|x: int| spec_literal_used(vars@, x) implies 0 <= x < 0x1_0000_0000 by {
            let k = choose|k: int| 0 <= k < vars@.len() && #[trigger] spec_lit_matches(vars@[k], x);
            assert(spec_assigned(vars@, k) == x);
            if (w as int) < 32 {
                vstd::arithmetic::power2::lemma_pow2_strictly_increases(w as nat, 32);
            }
            vstd::arithmetic::power2::lemma2_to64();
        }
    }
    let n = vars.len();
    let assigned = assign_values(vars);
    let mut i: usize = 0;
    while i < n
        invariant
            i <= n,
            n == vars@.len(),
            spec_enum_ok(vars@, w as int),
            assigned@.len() == n,
            forall|k: int| 0 <= k < n ==> assigned@[k] as int == spec_assigned(vars@, k),
            forall|k: int| 0 <= k < i ==> !spec_variant_matches(vars@, raw as int, k),
        decreases n - i,
    {
        let is_value_catch = match vars[i].catch {
            CatchMode::CatchValue => true,
            _ => false,
        };
        if !is_value_catch && assigned[i] == raw {
            proof {
                assert(spec_variant_matches(vars@, raw as int, i as int));
                let m = choose|k: int| spec_variant_matches(vars@, raw as int, k);
                assert(spec_variant_matches(vars@, raw as int, m));
                if m < i as int {
                    lemma_assigned_distinct(vars@, w as int, m, i as int);
                }
                if m > i as int {
                    lemma_assigned_distinct(vars@, w as int, i as int, m);
                }
            }
            return EnumValue { variant: i, raw: None };
        }
        i = i + 1;
    }
    let c = catch_index_exec(vars);
    let keep = match vars[c].catch {
        CatchMode::CatchValue => true,
        _ => false,
    };
    proof {
        assert(!(exists|k: int| spec_variant_matches(vars@, raw as int, k)));
    }
    if keep {
        EnumValue { variant: c, raw: Some(raw) }
    } else {
        EnumValue { variant: c, raw: None }
    }
}

/// A value with the lowest-unused characterization is the lowest unused
/// value: the characterization pins it down.
pub proof fn lemma_next_free_eq(vars: Seq<VariantSchema>, c: int, x: int)
    requires
        spec_free_from(vars, c, x),
    ensures
        spec_next_free(vars, c) == x,
{
    let z = spec_next_free(vars, c);
    assert(spec_free_from(vars, c, z)) by {
        assert(exists|x2: int| spec_free_from(vars, c, x2));
    }
    if z < x {
        assert(spec_literal_used(vars, z));
    }
    if x < z {
        assert(spec_literal_used(vars, x));
    }
}

/// When every literal lies below `bound`, a lowest unused value exists at or
/// above any starting point, and it lies at or below `bound` when the start
/// does.
pub proof fn lemma_next_free_exists(vars: Seq<VariantSchema>, c: int, bound: int)
    requires
        0 <= c,
        forall|x: int| spec_literal_used(vars, x) ==> 0 <= x < bound,
    ensures
        spec_free_from(vars, c, spec_next_free(vars, c)),
        spec_next_free(vars, c) <= if c <= bound {
            bound
        } else {
            c
        },
    decreases
            if c < bound {
                bound - c
            } else {
                0
            },
{
    if spec_literal_used(vars, c) {
        assert(c < bound);
        lemma_next_free_exists(vars, c + 1, bound);
        let x = spec_next_free(vars, c + 1);
        assert(spec_free_from(vars, c, x));
        lemma_next_free_eq(vars, c, x);
    } else {
        assert(spec_free_from(vars, c, c));
        lemma_next_free_eq(vars, c, c);
    }
}

/// The auto-assignment counter never moves backwards.
pub proof fn lemma_counter_monotone(vars: Seq<VariantSchema>, i: int, j: int, bound: int)
    requires
        0 <= i <= j,
        forall|x: int| spec_literal_used(vars, x) ==> 0 <= x < bound,
    ensures
        spec_counter_after(vars, i) <= spec_counter_after(vars, j),
        0 <= spec_counter_after(vars, i),
    decreases j - i,
{
    lemma_counter_nonneg(vars, i, bound);
    if i < j {
        lemma_counter_monotone(vars, i, j - 1, bound);
        if vars[j - 1].literal is None {
            lemma_counter_nonneg(vars, j - 1, bound);
            lemma_next_free_exists(vars, spec_counter_after(vars, j - 1), bound);
        }
    }
}

proof fn lemma_counter_nonneg(vars: Seq<VariantSchema>, n: int, bound: int)
    requires
        forall|x: int| spec_literal_used(vars, x) ==> 0 <= x < bound,
    ensures
        0 <= spec_counter_after(vars, n),
    decreases
            if n > 0 {
                n
            } else {
                0
            },
{
    if n > 0 {
        lemma_counter_nonneg(vars, n - 1, bound);
        if vars[n - 1].literal is None {
            lemma_next_free_exists(vars, spec_counter_after(vars, n - 1), bound);
        }
    }
}

/// Every assigned value is non-negative.
pub proof fn lemma_assigned_nonneg(vars: Seq<VariantSchema>, w: int, i: int)
    requires
        spec_enum_ok(vars, w),
        0 <= i < vars.len(),
    ensures
        0 <= spec_assigned(vars, i),
{
    let bound = pow2(32) as int;
    assert forall|x: int| spec_literal_used(vars, x) implies 0 <= x < bound by {
        let k = choose|k: int| 0 <= k < vars.len() && #[trigger] spec_lit_matches(vars[k], x);
        assert(spec_assigned(vars, k) == x);
        if w < 32 {
            vstd::arithmetic::power2::lemma_pow2_strictly_increases(w as nat, 32);
        }
    }
    match vars[i].literal {
        Some(_) => {
        },
        None => {
            lemma_counter_monotone(vars, 0, i, bound);
            lemma_next_free_exists(vars, spec_counter_after(vars, i), bound);
        },
    }
}

/// No two variants share an assigned value when the mapping is consistent.
pub proof fn lemma_assigned_distinct(vars: Seq<VariantSchema>, w: int, i: int, j: int)
    requires
        spec_enum_ok(vars, w),
        0 <= i < j < vars.len(),
    ensures
        spec_assigned(vars, i) != spec_assigned(vars, j),
{
    let bound = pow2(32) as int;
    assert forall|x: int| spec_literal_used(vars, x) implies 0 <= x < bound by {
        let k = choose|k: int| 0 <= k < vars.len() && #[trigger] spec_lit_matches(vars[k], x);
        assert(spec_assigned(vars, k) == x);
        if w < 32 {
            vstd::arithmetic::power2::lemma_pow2_strictly_increases(w as nat, 32);
        } else {
            assert(w == 32);
        }
    }
    match (vars[i].literal, vars[j].literal) {
        (Some(_), Some(_)) => {
        },
        (Some(_), None) => {
            lemma_counter_monotone(vars, 0, j, bound);
            lemma_next_free_exists(vars, spec_counter_after(vars, j), bound);
            assert(spec_lit_matches(vars[i], spec_assigned(vars, i)));
            assert(spec_literal_used(vars, spec_assigned(vars, i)));
        },
        (None, Some(_)) => {
            lemma_counter_monotone(vars, 0, i, bound);
            lemma_next_free_exists(vars, spec_counter_after(vars, i), bound);
            assert(spec_lit_matches(vars[j], spec_assigned(vars, j)));
            assert(spec_literal_used(vars, spec_assigned(vars, j)));
        },
        (None, None) => {
            lemma_counter_monotone(vars, 0, i, bound);
            lemma_next_free_exists(vars, spec_counter_after(vars, i), bound);
            assert(spec_counter_after(vars, i + 1) == spec_next_free(
                vars,
                spec_counter_after(vars, i),
            ) + 1);
            assert(spec_assigned(vars, i) < spec_counter_after(vars, i + 1));
            lemma_counter_monotone(vars, i + 1, j, bound);
            lemma_next_free_exists(vars, spec_counter_after(vars, j), bound);
            assert(spec_assigned(vars, j) >= spec_counter_after(vars, j));
        },
    }
}

/// Encoding a well-formed enum record value and decoding the primitive gives
/// the value back; only a catch-all variant's absorbed values are lost, and
/// such a variant is never encoded from them.
pub proof fn lemma_enum_round_trip(vars: Seq<VariantSchema>, w: int, ev: EnumValue)
    requires
        spec_enum_ok(vars, w),
        spec_enum_value_ok(vars, w, ev),
    ensures
        spec_enum_decode(vars, spec_enum_encode(vars, ev)) == ev,
{
    let raw = spec_enum_encode(vars, ev);
    let v = ev.variant as int;
    if vars[v].catch == CatchMode::CatchValue {
        assert forall|i: int| !spec_variant_matches(vars, raw, i) by {
            if 0 <= i < vars.len() && vars[i].catch != CatchMode::CatchValue {
                assert(spec_assigned(vars, i) != raw);
            }
        }
        assert(spec_is_catch(vars[v]));
        let c = spec_catch_index(vars);
        assert(0 <= c < vars.len() && spec_is_catch(vars[c]));
        if c != v {
            if c < v {
                assert(!(spec_is_catch(vars[c]) && spec_is_catch(vars[v])));
            } else {
                assert(!(spec_is_catch(vars[v]) && spec_is_catch(vars[c])));
            }
        }
        assert(c == v);
        assert(spec_catch_keeps_value(vars));
        assert(spec_enum_decode(vars, raw) == ev);
    } else {
        assert(spec_variant_matches(vars, raw, v));
        let m = choose|i: int| spec_variant_matches(vars, raw, i);
        assert(spec_variant_matches(vars, raw, m));
        if m != v {
            if m < v {
                lemma_assigned_distinct(vars, w, m, v);
            } else {
                lemma_assigned_distinct(vars, w, v, m);
            }
        }
        assert(spec_enum_decode(vars, raw) == ev);
    }
}

} // verus!
