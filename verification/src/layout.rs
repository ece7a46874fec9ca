//! Layout resolution: absolute bit ranges from declared fields.
//!
//! Fields are walked in declaration order with an offset cursor; a field with
//! an explicit range keeps it verbatim and does not advance the cursor.  The
//! resolver validates every schema rule and either returns a complete layout
//! or one aggregated report of every violation found, never a partial
//! success.

use vstd::prelude::*;
use crate::enums::spec_enum_ok;
use crate::schema::{FieldKind, FieldSchema, StructConfig};

verus! {

/// A field's resolved absolute bit range `[start_bit, end_bit)`.
#[derive(Clone, Copy, PartialEq, Eq, Structural, Debug)]
pub struct ResolvedRange {
    /// First absolute bit position of the field.
    pub start_bit: usize,
    /// One past the last absolute bit position of the field.
    pub end_bit: usize,
}

/// The resolved layout of a record: one range per declared field, in
/// declaration order, plus the record's total size.
#[derive(Clone, Debug)]
pub struct Layout {
    /// Total number of bits the record occupies.
    pub total_bits: usize,
    /// `ceil(total_bits / 8)`: the record's buffer size in bytes.
    pub total_bytes: usize,
    /// Ranges parallel to the schema's field list.
    pub ranges: Vec<ResolvedRange>,
}

/// A schema rule violation, detected at resolution time.  Fields are
/// identified by their index in declaration order.
#[derive(Clone, Copy, PartialEq, Eq, Structural, Debug)]
pub enum SchemaError {
    /// The field's width is zero.
    ZeroWidth { field: usize },
    /// The field's declared width exceeds what its backing primitive holds.
    WidthExceedsNative { field: usize },
    /// The field's explicit bit range disagrees with its width.
    BadExplicitRange { field: usize },
    /// The field's enum mapping is inconsistent.
    BadEnum { field: usize },
    /// Two fields' resolved ranges overlap.
    Overlap { first: usize, second: usize },
    /// The resolved total bit count differs from the enforced one.
    SizeMismatchBits { expected: usize, actual: usize },
    /// The resolved total byte count differs from the enforced one.
    SizeMismatchBytes { expected: usize, actual: usize },
    /// The resolved total bit count is not a whole number of bytes.
    NotFullBytes { actual_bits: usize },
}

/// The offset cursor after sequentially placing the first `n` fields: a
/// field with an explicit range leaves the cursor where it was.
pub open spec fn spec_cursor_after(fields: Seq<FieldSchema>, n: int) -> int
    decreases n,
{
    if n <= 0 {
        0
    } else {
        let prev = spec_cursor_after(fields, n - 1);
        if fields[n - 1].explicit_bit_range is Some {
            prev
        } else {
            prev + crate::schema::spec_field_width(fields[n - 1])
        }
    }
}

/// The resolved `[start, end)` range of field `i`.
pub open spec fn spec_range_start(fields: Seq<FieldSchema>, i: int) -> int {
    match fields[i].explicit_bit_range {
        Some(r) => r.0 as int,
        None => spec_cursor_after(fields, i),
    }
}

/// One past the last bit of field `i`.
pub open spec fn spec_range_end(fields: Seq<FieldSchema>, i: int) -> int {
    match fields[i].explicit_bit_range {
        Some(r) => r.1 as int,
        None => spec_cursor_after(fields, i) + crate::schema::spec_field_width(fields[i]),
    }
}

/// The largest resolved end over the first `n` fields: the record's total
/// bit count once every field is placed.
pub open spec fn spec_max_end(fields: Seq<FieldSchema>, n: int) -> int
    decreases n,
{
    if n <= 0 {
        0
    } else {
        let m = spec_max_end(fields, n - 1);
        let e = spec_range_end(fields, n - 1);
        if e > m {
            e
        } else {
            m
        }
    }
}

/// The record's total bit count.
pub open spec fn spec_total_bits(fields: Seq<FieldSchema>) -> int {
    spec_max_end(fields, fields.len() as int)
}

/// The field's declared width respects its backing primitive.
pub open spec fn spec_native_ok(f: FieldSchema) -> bool {
    match f.kind {
        FieldKind::Unsigned { native_bits } => f.bit_length <= native_bits && native_bits <= 64,
        FieldKind::Signed { native_bits } => f.bit_length <= native_bits && native_bits <= 64,
        FieldKind::Boolean => f.bit_length <= 8,
        FieldKind::Float { native_bits } => f.bit_length <= native_bits && native_bits <= 64,
        FieldKind::Enum { primitive_bits, .. } => f.bit_length <= primitive_bits
            && primitive_bits <= 32,
        FieldKind::Nested { .. } => true,
        FieldKind::ArrayElement { .. } => true,
        FieldKind::ArrayBlock { .. } => true,
    }
}

/// The field's explicit range, when given, spans exactly its width.
pub open spec fn spec_explicit_ok(f: FieldSchema) -> bool {
    match f.explicit_bit_range {
        Some(r) => r.0 as int + crate::schema::spec_field_width(f) == r.1 as int,
        None => true,
    }
}

/// The field's enum mapping, when it has one, is consistent for its width.
pub open spec fn spec_field_enum_ok(f: FieldSchema) -> bool {
    match f.kind {
        FieldKind::Enum { mapping, .. } => spec_enum_ok(mapping.variants@, f.bit_length as int),
        _ => true,
    }
}

/// All per-field schema rules.
pub open spec fn spec_field_ok(f: FieldSchema) -> bool {
    crate::schema::spec_field_width(f) > 0 && spec_native_ok(f) && spec_explicit_ok(f)
        && spec_field_enum_ok(f)
}

/// Fields `i` and `j` occupy disjoint bit ranges.
pub open spec fn spec_pair_disjoint(fields: Seq<FieldSchema>, i: int, j: int) -> bool {
    spec_range_end(fields, i) <= spec_range_start(fields, j) || spec_range_end(fields, j)
        <= spec_range_start(fields, i)
}

/// No two distinct fields overlap.
pub open spec fn spec_all_disjoint(fields: Seq<FieldSchema>) -> bool {
    forall|i: int, j: int|
        0 <= i < j < fields.len() ==> #[trigger] spec_pair_disjoint(fields, i, j)
}

/// The record's total size meets every enforced constraint.
pub open spec fn spec_size_ok(config: StructConfig, total: int) -> bool {
    (match config.enforce_bits {
        Some(b) => total == b as int,
        None => true,
    }) && (match config.enforce_bytes {
        Some(b) => (total + 7) / 8 == b as int,
        None => true,
    }) && (config.enforce_full_bytes ==> total % 8 == 0)
}

/// The whole schema is valid for `config`.
pub open spec fn spec_schema_valid(fields: Seq<FieldSchema>, config: StructConfig) -> bool {
    (forall|i: int| 0 <= i < fields.len() ==> spec_field_ok(#[trigger] fields[i]))
        && spec_all_disjoint(fields) && spec_size_ok(config, spec_total_bits(fields))
}

/// `layout` is exactly the layout that the cursor walk assigns to `fields`.
pub open spec fn spec_layout_matches(fields: Seq<FieldSchema>, layout: Layout) -> bool {
    layout.ranges@.len() == fields.len() && layout.total_bits as int == spec_total_bits(fields)
        && layout.total_bytes as int == (spec_total_bits(fields) + 7) / 8 && forall|i: int|
        0 <= i < fields.len() ==> (#[trigger] layout.ranges@[i]).start_bit as int
            == spec_range_start(fields, i) && layout.ranges@[i].end_bit as int == spec_range_end(
            fields,
            i,
        )
}

/// Disjointness: under a valid schema, two distinct fields' resolved bit
/// ranges never overlap, and every range lies within `[0, total_bits)`;
/// what is left of that interval is explicit gap space.
pub proof fn lemma_ranges_disjoint_and_within(
    fields: Seq<FieldSchema>,
    config: StructConfig,
    i: int,
    j: int,
)
    requires
        spec_schema_valid(fields, config),
        0 <= i < fields.len(),
        0 <= j < fields.len(),
        i != j,
    ensures
        spec_range_end(fields, i) <= spec_range_start(fields, j) || spec_range_end(fields, j)
            <= spec_range_start(fields, i),
        0 <= spec_range_start(fields, i),
        spec_range_end(fields, i) <= spec_total_bits(fields),
{
    lemma_max_end_bounds(fields, fields.len() as int);
    lemma_cursor_monotone(fields, 0, i);
    if i < j {
        assert(spec_pair_disjoint(fields, i, j));
    } else {
        assert(spec_pair_disjoint(fields, j, i));
    }
}

/// An error the resolver may report, together with the condition it reports:
/// every error in an aggregated report is justified by its condition.
pub open spec fn spec_error_justified(
    e: SchemaError,
    fields: Seq<FieldSchema>,
    config: StructConfig,
) -> bool {
    match e {
        SchemaError::ZeroWidth { field } => 0 <= field < fields.len()
            && crate::schema::spec_field_width(fields[field as int]) == 0,
        SchemaError::WidthExceedsNative { field } => 0 <= field < fields.len() && !spec_native_ok(
            fields[field as int],
        ),
        SchemaError::BadExplicitRange { field } => 0 <= field < fields.len() && !spec_explicit_ok(
            fields[field as int],
        ),
        SchemaError::BadEnum { field } => 0 <= field < fields.len() && !spec_field_enum_ok(
            fields[field as int],
        ),
        SchemaError::Overlap { first, second } => 0 <= first < second < fields.len()
            && !spec_pair_disjoint(fields, first as int, second as int),
        SchemaError::SizeMismatchBits { expected, actual } => config.enforce_bits == Some(expected)
            && actual as int == spec_total_bits(fields) && expected != actual,
        SchemaError::SizeMismatchBytes { expected, actual } => config.enforce_bytes == Some(
            expected,
        ) && actual as int == (spec_total_bits(fields) + 7) / 8 && expected != actual,
        SchemaError::NotFullBytes { actual_bits } => config.enforce_full_bytes && actual_bits as int
            == spec_total_bits(fields) && spec_total_bits(fields) % 8 != 0,
    }
}

/// The cursor never moves backwards.
pub proof fn lemma_cursor_monotone(fields: Seq<FieldSchema>, i: int, j: int)
    requires
        0 <= i <= j,
    ensures
        spec_cursor_after(fields, i) <= spec_cursor_after(fields, j),
    decreases j - i,
{
    if i < j {
        lemma_cursor_monotone(fields, i, j - 1);
        assert(crate::schema::spec_field_width(fields[j - 1]) >= 0);
    }
}

/// The running maximum never decreases, covers every placed end, and stays
/// at or above the cursor.
pub proof fn lemma_max_end_bounds(fields: Seq<FieldSchema>, n: int)
    requires
        0 <= n <= fields.len(),
    ensures
        spec_cursor_after(fields, n) <= spec_max_end(fields, n),
        spec_max_end(fields, n) <= spec_max_end(fields, fields.len() as int),
        forall|i: int| 0 <= i < n ==> #[trigger] spec_range_end(fields, i) <= spec_max_end(
            fields,
            n,
        ),
    decreases fields.len() - n,
{
    lemma_max_end_mono_rec(fields, n);
    lemma_max_end_cursor_rec(fields, n);
}

proof fn lemma_max_end_mono_rec(fields: Seq<FieldSchema>, n: int)
    requires
        0 <= n <= fields.len(),
    ensures
        spec_max_end(fields, n) <= spec_max_end(fields, fields.len() as int),
    decreases fields.len() - n,
{
    if n < fields.len() {
        lemma_max_end_mono_rec(fields, n + 1);
    }
}

proof fn lemma_max_end_cursor_rec(fields: Seq<FieldSchema>, n: int)
    requires
        0 <= n <= fields.len(),
    ensures
        spec_cursor_after(fields, n) <= spec_max_end(fields, n),
        forall|i: int| 0 <= i < n ==> #[trigger] spec_range_end(fields, i) <= spec_max_end(
            fields,
            n,
        ),
    decreases n,
{
    if n > 0 {
        lemma_max_end_cursor_rec(fields, n - 1);
        assert(crate::schema::spec_field_width(fields[n - 1]) >= 0);
    }
}

/// An error list contains `e`.
pub open spec fn spec_contains_err(errs: Seq<SchemaError>, e: SchemaError) -> bool {
    exists|k: int| 0 <= k < errs.len() && errs[k] == e
}

/// Whatever a report contains, a report it is a prefix of contains too.
proof fn lemma_contains_prefix(pre: Seq<SchemaError>, post: Seq<SchemaError>)
    requires
        pre.len() <= post.len(),
        forall|k: int| 0 <= k < pre.len() ==> post[k] == pre[k],
    ensures
        forall|x: SchemaError| spec_contains_err(pre, x) ==> spec_contains_err(post, x),
{
    assert forall|x: SchemaError| spec_contains_err(pre, x) implies spec_contains_err(post, x) by {
        let k = choose|k: int| 0 <= k < pre.len() && pre[k] == x;
        assert(post[k] == x);
    }
}

/// Computes a field's width, or reports that it exceeds the machine's
/// address range.
fn width_checked(f: &FieldSchema) -> (r: Option<usize>)
    ensures
        match r {
            Some(w) => w as int == crate::schema::spec_field_width(*f),
            None => crate::schema::spec_field_width(*f) > usize::MAX as int,
        },
{
    match &f.kind {
        FieldKind::Unsigned { .. } => Some(f.bit_length),
        FieldKind::Signed { .. } => Some(f.bit_length),
        FieldKind::Boolean => Some(f.bit_length),
        FieldKind::Float { .. } => Some(f.bit_length),
        FieldKind::Enum { .. } => Some(f.bit_length),
        FieldKind::Nested { total_bits } => Some(*total_bits),
        FieldKind::ArrayElement { element_bits, count } => element_bits.checked_mul(*count),
        FieldKind::ArrayBlock { block_bits } => Some(*block_bits),
    }
}

/// Checks a field's declared width against its backing primitive.
fn native_ok_exec(f: &FieldSchema) -> (r: bool)
    ensures
        r == spec_native_ok(*f),
{
    match &f.kind {
        FieldKind::Unsigned { native_bits } => f.bit_length <= *native_bits && *native_bits <= 64,
        FieldKind::Signed { native_bits } => f.bit_length <= *native_bits && *native_bits <= 64,
        FieldKind::Boolean => f.bit_length <= 8,
        FieldKind::Float { native_bits } => f.bit_length <= *native_bits && *native_bits <= 64,
        FieldKind::Enum { primitive_bits, .. } => f.bit_length <= *primitive_bits
            && *primitive_bits <= 32,
        FieldKind::Nested { .. } => true,
        FieldKind::ArrayElement { .. } => true,
        FieldKind::ArrayBlock { .. } => true,
    }
}

/// Resolves a schema to a layout: assigns every field its absolute bit
/// range, derives the total size, and validates every rule.  Returns either
/// a complete layout or one aggregated report of every violation found,
/// each error justified by a real violation and every violation reported.
pub fn resolve(fields: &Vec<FieldSchema>, config: &StructConfig) -> (r: Result<
    Layout,
    Vec<SchemaError>,
>)
    requires
        spec_total_bits(fields@) + 7 <= usize::MAX as int,
    ensures
        r is Ok <==> spec_schema_valid(fields@, *config),
        match r {
            Ok(layout) => spec_layout_matches(fields@, layout),
            Err(errs) => errs@.len() > 0 && (forall|k: int|
                0 <= k < errs@.len() ==> spec_error_justified(#[trigger] errs@[k], fields@, *config))
                && (forall|i: int|
                0 <= i < fields@.len() && crate::schema::spec_field_width(fields@[i]) == 0
                    ==> spec_contains_err(
                    errs@,
                    SchemaError::ZeroWidth { field: i as usize },
                )) && (forall|i: int|
                0 <= i < fields@.len() && !spec_native_ok(#[trigger] fields@[i])
                    ==> spec_contains_err(
                    errs@,
                    SchemaError::WidthExceedsNative { field: i as usize },
                )) && (forall|i: int|
                0 <= i < fields@.len() && !spec_explicit_ok(#[trigger] fields@[i])
                    ==> spec_contains_err(
                    errs@,
                    SchemaError::BadExplicitRange { field: i as usize },
                )) && (forall|i: int|
                0 <= i < fields@.len() && !spec_field_enum_ok(#[trigger] fields@[i])
                    ==> spec_contains_err(
                    errs@,
                    SchemaError::BadEnum { field: i as usize },
                )) && (forall|i: int, j: int|
                0 <= i < j < fields@.len() && !spec_pair_disjoint(fields@, i, j)
                    ==> spec_contains_err(
                    errs@,
                    SchemaError::Overlap { first: i as usize, second: j as usize },
                )) && (match config.enforce_bits {
                Some(b) => spec_total_bits(fields@) != b as int ==> spec_contains_err(
                    errs@,
                    SchemaError::SizeMismatchBits {
                        expected: b,
                        actual: spec_total_bits(fields@) as usize,
                    },
                ),
                None => true,
            }) && (match config.enforce_bytes {
                Some(b) => (spec_total_bits(fields@) + 7) / 8 != b as int ==> spec_contains_err(
                    errs@,
                    SchemaError::SizeMismatchBytes {
                        expected: b,
                        actual: ((spec_total_bits(fields@) + 7) / 8) as usize,
                    },
                ),
                None => true,
            }) && (config.enforce_full_bytes && spec_total_bits(fields@) % 8 != 0
                ==> spec_contains_err(
                errs@,
                SchemaError::NotFullBytes { actual_bits: spec_total_bits(fields@) as usize },
            )),
        },
{
    let n = fields.len();
    let ghost fseq = fields@;
    let mut errors: Vec<SchemaError> = Vec::new();

    // Per-field rules.
    let mut i: usize = 0;
    while i < n
        invariant
            i <= n,
            n == fseq.len(),
            fseq == fields@,
            forall|k: int|
                0 <= k < errors@.len() ==> spec_error_justified(
                    #[trigger] errors@[k],
                    fseq,
                    *config,
                ),
            forall|k: int|
                0 <= k < i && crate::schema::spec_field_width(fseq[k]) == 0 ==> spec_contains_err(
                    errors@,
                    SchemaError::ZeroWidth { field: k as usize },
                ),
            forall|k: int|
                0 <= k < i && !spec_native_ok(#[trigger] fseq[k]) ==> spec_contains_err(
                    errors@,
                    SchemaError::WidthExceedsNative { field: k as usize },
                ),
            forall|k: int|
                0 <= k < i && !spec_explicit_ok(#[trigger] fseq[k]) ==> spec_contains_err(
                    errors@,
                    SchemaError::BadExplicitRange { field: k as usize },
                ),
            forall|k: int|
                0 <= k < i && !spec_field_enum_ok(#[trigger] fseq[k]) ==> spec_contains_err(
                    errors@,
                    SchemaError::BadEnum { field: k as usize },
                ),
        decreases n - i,
    {
        let ghost pre = errors@;
        let wopt = width_checked(&fields[i]);
        let zero = match wopt {
            Some(w) => w == 0,
            None => false,
        };
        if zero {
            errors.push(SchemaError::ZeroWidth { field: i });
            proof {
                assert(errors@[errors@.len() - 1] == SchemaError::ZeroWidth { field: i });
            }
        }
        let ghost s_zero = errors@;
        if !native_ok_exec(&fields[i]) {
            errors.push(SchemaError::WidthExceedsNative { field: i });
            proof {
                assert(errors@[errors@.len() - 1] == SchemaError::WidthExceedsNative { field: i });
            }
        }
        let ghost s_native = errors@;
        let explicit_ok = match fields[i].explicit_bit_range {
            Some((s, e)) => match wopt {
                Some(w) => e >= s && e - s == w,
                None => false,
            },
            None => true,
        };
        if !explicit_ok {
            errors.push(SchemaError::BadExplicitRange { field: i });
            proof {
                assert(errors@[errors@.len() - 1] == SchemaError::BadExplicitRange { field: i });
            }
        }
        let ghost s_explicit = errors@;
        let enum_ok = match &fields[i].kind {
            FieldKind::Enum { mapping, .. } => crate::enums::validate_enum(
                &mapping.variants,
                fields[i].bit_length,
            ),
            _ => true,
        };
        if !enum_ok {
            errors.push(SchemaError::BadEnum { field: i });
            proof {
                assert(errors@[errors@.len() - 1] == SchemaError::BadEnum { field: i });
            }
        }
        proof {
            lemma_contains_prefix(pre, errors@);
            lemma_contains_prefix(s_zero, errors@);
            lemma_contains_prefix(s_native, errors@);
            lemma_contains_prefix(s_explicit, errors@);
        }
        i = i + 1;
    }

    // Sequential placement with the offset cursor.
    let mut ranges: Vec<ResolvedRange> = Vec::new();
    let mut cursor: usize = 0;
    let mut maxend: usize = 0;
    let mut i2: usize = 0;
    proof {
        lemma_max_end_bounds(fseq, 0);
    }
    while i2 < n
        invariant
            i2 <= n,
            n == fseq.len(),
            fseq == fields@,
            spec_total_bits(fseq) + 7 <= usize::MAX as int,
            cursor as int == spec_cursor_after(fseq, i2 as int),
            maxend as int == spec_max_end(fseq, i2 as int),
            ranges@.len() == i2,
            forall|k: int|
                0 <= k < i2 ==> (#[trigger] ranges@[k]).start_bit as int == spec_range_start(
                    fseq,
                    k,
                ) && ranges@[k].end_bit as int == spec_range_end(fseq, k),
        decreases n - i2,
    {
        proof {
            lemma_max_end_bounds(fseq, i2 as int + 1);
            lemma_max_end_bounds(fseq, i2 as int);
        }
        let explicit = fields[i2].explicit_bit_range;
        match explicit {
            Some((s, e)) => {
                ranges.push(ResolvedRange { start_bit: s, end_bit: e });
                if e > maxend {
                    maxend = e;
                }
            },
            None => {
                proof {
                    assert(spec_range_end(fseq, i2 as int) <= spec_max_end(fseq, i2 as int + 1));
                }
                let w = fields[i2].width();
                let end = cursor + w;
                ranges.push(ResolvedRange { start_bit: cursor, end_bit: end });
                cursor = end;
                if end > maxend {
                    maxend = end;
                }
            },
        };
        i2 = i2 + 1;
    }
    let total_bits = maxend;
    let total_bytes = (total_bits + 7) / 8;

    // Size constraints.
    let ghost errs_after_fields = errors@;
    match config.enforce_bits {
        Some(b) => {
            if total_bits != b {
                errors.push(SchemaError::SizeMismatchBits { expected: b, actual: total_bits });
                proof {
                    assert(errors@[errors@.len() - 1] == SchemaError::SizeMismatchBits {
                        expected: b,
                        actual: total_bits,
                    });
                }
            }
        },
        None => {},
    };
    let ghost s_bits = errors@;
    match config.enforce_bytes {
        Some(b) => {
            if total_bytes != b {
                errors.push(SchemaError::SizeMismatchBytes { expected: b, actual: total_bytes });
                proof {
                    assert(errors@[errors@.len() - 1] == SchemaError::SizeMismatchBytes {
                        expected: b,
                        actual: total_bytes,
                    });
                }
            }
        },
        None => {},
    };
    let ghost s_bytes = errors@;
    if config.enforce_full_bytes && total_bits % 8 != 0 {
        errors.push(SchemaError::NotFullBytes { actual_bits: total_bits });
        proof {
            assert(errors@[errors@.len() - 1] == SchemaError::NotFullBytes {
                actual_bits: total_bits,
            });
        }
    }
    let ghost errs_after_size = errors@;
    proof {
        lemma_contains_prefix(errs_after_fields, errs_after_size);
        lemma_contains_prefix(s_bits, errs_after_size);
        lemma_contains_prefix(s_bytes, errs_after_size);
    }

    // Overlap sweep over all pairs.
    let mut i3: usize = 0;
    while i3 < n
        invariant
            i3 <= n,
            n == fseq.len(),
            fseq == fields@,
            ranges@.len() == n,
            forall|k: int|
                0 <= k < n ==> (#[trigger] ranges@[k]).start_bit as int == spec_range_start(fseq, k)
                    && ranges@[k].end_bit as int == spec_range_end(fseq, k),
            forall|k: int|
                0 <= k < errors@.len() ==> spec_error_justified(
                    #[trigger] errors@[k],
                    fseq,
                    *config,
                ),
            errors@.len() >= errs_after_size.len(),
            forall|k: int| 0 <= k < errs_after_size.len() ==> errors@[k] == errs_after_size[k],
            forall|a: int, b: int|
                0 <= a < b < n && a < i3 && !spec_pair_disjoint(fseq, a, b) ==> spec_contains_err(
                    errors@,
                    SchemaError::Overlap { first: a as usize, second: b as usize },
                ),
        decreases n - i3,
    {
        let si = ranges[i3].start_bit;
        let ei = ranges[i3].end_bit;
        let mut j: usize = i3 + 1;
        while j < n
            invariant
                i3 < n,
                i3 + 1 <= j <= n,
                n == fseq.len(),
                fseq == fields@,
                ranges@.len() == n,
                si as int == spec_range_start(fseq, i3 as int),
                ei as int == spec_range_end(fseq, i3 as int),
                forall|k: int|
                    0 <= k < n ==> (#[trigger] ranges@[k]).start_bit as int == spec_range_start(
                        fseq,
                        k,
                    ) && ranges@[k].end_bit as int == spec_range_end(fseq, k),
                forall|k: int|
                    0 <= k < errors@.len() ==> spec_error_justified(
                        #[trigger] errors@[k],
                        fseq,
                        *config,
                    ),
                errors@.len() >= errs_after_size.len(),
                forall|k: int| 0 <= k < errs_after_size.len() ==> errors@[k] == errs_after_size[k],
                forall|a: int, b: int|
                    0 <= a < b < n && a < i3 && !spec_pair_disjoint(fseq, a, b)
                        ==> spec_contains_err(
                        errors@,
                        SchemaError::Overlap { first: a as usize, second: b as usize },
                    ),
                forall|b: int|
                    i3 < b < j && !spec_pair_disjoint(fseq, i3 as int, b) ==> spec_contains_err(
                        errors@,
                        SchemaError::Overlap { first: i3 as usize, second: b as usize },
                    ),
            decreases n - j,
        {
            let ghost pre = errors@;
            let sj = ranges[j].start_bit;
            let ej = ranges[j].end_bit;
            if !(ei <= sj || ej <= si) {
                errors.push(SchemaError::Overlap { first: i3, second: j });
                proof {
                    assert(errors@[errors@.len() - 1] == SchemaError::Overlap {
                        first: i3,
                        second: j,
                    });
                }
            }
            proof {
                lemma_contains_prefix(pre, errors@);
            }
            j = j + 1;
        }
        i3 = i3 + 1;
    }
    proof {
        lemma_contains_prefix(errs_after_size, errors@);
    }

    if errors.len() == 0 {
        proof {
            assert forall|k: int| 0 <= k < fseq.len() implies spec_field_ok(
                #[trigger] fseq[k],
            ) by {
                if crate::schema::spec_field_width(fseq[k]) == 0 {
                    assert(spec_contains_err(errors@, SchemaError::ZeroWidth { field: k as usize }));
                }
                if !spec_native_ok(fseq[k]) {
                    assert(spec_contains_err(
                        errors@,
                        SchemaError::WidthExceedsNative { field: k as usize },
                    ));
                }
                if !spec_explicit_ok(fseq[k]) {
                    assert(spec_contains_err(
                        errors@,
                        SchemaError::BadExplicitRange { field: k as usize },
                    ));
                }
                if !spec_field_enum_ok(fseq[k]) {
                    assert(spec_contains_err(errors@, SchemaError::BadEnum { field: k as usize }));
                }
            }
            assert forall|a: int, b: int| 0 <= a < b < fseq.len() implies #[trigger] spec_pair_disjoint(
                fseq,
                a,
                b,
            ) by {
                if !spec_pair_disjoint(fseq, a, b) {
                    assert(spec_contains_err(
                        errors@,
                        SchemaError::Overlap { first: a as usize, second: b as usize },
                    ));
                }
            }
        }
        proof {
            assert(errs_after_size.len() == 0);
            assert(spec_size_ok(*config, spec_total_bits(fseq)));
        }
        Ok(Layout { total_bits, total_bytes, ranges })
    } else {
        proof {
            assert(spec_error_justified(errors@[0], fseq, *config));
            if spec_schema_valid(fseq, *config) {
                assert(false);
            }
        }
        Err(errors)
    }
}

} // verus!
