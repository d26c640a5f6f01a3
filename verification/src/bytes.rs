//! Byte sequences: concatenation, fixed-width cells and the length-prefixed stream.

use vstd::prelude::*;

verus! {

/// The bytes of all parts, one behind the other.
pub open spec fn concat(parts: Seq<Seq<u8>>) -> Seq<u8>
    decreases parts.len(),
{
    if parts.len() == 0 {
        Seq::empty()
    } else {
        concat(parts.drop_last()) + parts.last()
    }
}

/// The number that four bytes spell, the lowest byte first.
pub open spec fn le_u32(bytes: Seq<u8>) -> nat {
    (bytes[0] + 256 * bytes[1] + 65536 * bytes[2] + 16777216 * bytes[3]) as nat
}

/// The four bytes that spell a number, the lowest byte first.
pub open spec fn le_u32_bytes(n: nat) -> Seq<u8> {
    seq![
        (n % 256) as u8,
        ((n / 256) % 256) as u8,
        ((n / 65536) % 256) as u8,
        ((n / 16777216) % 256) as u8,
    ]
}

/// A value behind its length.
pub open spec fn prefixed(value: Seq<u8>) -> Seq<u8> {
    le_u32_bytes(value.len()) + value
}

/// Each value behind its length.
pub open spec fn all_prefixed(values: Seq<Seq<u8>>) -> Seq<Seq<u8>> {
    values.map_values(|v: Seq<u8>| prefixed(v))
}

/// The values of a stream in which each stands behind its length, or `None` where the stream ends
/// within a value.
pub open spec fn parse_values(stream: Seq<u8>) -> Option<Seq<Seq<u8>>>
    decreases stream.len(),
{
    if stream.len() == 0 {
        Some(Seq::empty())
    } else if stream.len() < 4 || stream.len() < 4 + le_u32(stream) {
        None
    } else {
        let end = 4 + le_u32(stream) as int;
        match parse_values(stream.skip(end)) {
            None => None,
            Some(rest) => Some(seq![stream.subrange(4, end)] + rest),
        }
    }
}

/// Where in its stream the length of the `i`th value stands.
pub open spec fn value_start(values: Seq<Seq<u8>>, i: int) -> int
    decreases i,
{
    if i <= 0 {
        0
    } else {
        value_start(values, i - 1) + 4 + values[i - 1].len()
    }
}

/// The number that the four bytes at `at` spell, the lowest byte first.
pub fn read_le_u32(bytes: &[u8], at: usize) -> (n: u32)
    requires
        at + 4 <= bytes@.len(),
    ensures
        n == le_u32(bytes@.skip(at as int)),
        n == bytes@[at as int] + 256 * bytes@[at + 1] + 65536 * bytes@[at + 2] + 16777216
            * bytes@[at + 3],
{
    bytes[at] as u32 + 256 * bytes[at + 1] as u32 + 65536 * bytes[at + 2] as u32 + 16777216
        * bytes[at + 3] as u32
}

/// Appends the four bytes that spell `n`, the lowest byte first.
pub fn push_le_u32(out: &mut Vec<u8>, n: u32)
    ensures
        final(out)@ == old(out)@ + le_u32_bytes(n as nat),
        final(out)@.len() == old(out)@.len() + 4,
        ({
            let start = old(out)@.len() as int;
            final(out)@[start] + 256 * final(out)@[start + 1] + 65536 * final(out)@[start + 2]
                + 16777216 * final(out)@[start + 3] == n
        }),
{
    out.push((n % 256) as u8);
    out.push(((n / 256) % 256) as u8);
    out.push(((n / 65536) % 256) as u8);
    out.push(((n / 16777216) % 256) as u8);
    assert(out@ =~= old(out)@ + le_u32_bytes(n as nat));
    proof {
        lemma_le_u32_roundtrip(n as nat, Seq::empty());
        let start = old(out)@.len() as int;
        let spelled = le_u32_bytes(n as nat) + Seq::<u8>::empty();
        assert(out@[start] == spelled[0]);
        assert(out@[start + 1] == spelled[1]);
        assert(out@[start + 2] == spelled[2]);
        assert(out@[start + 3] == spelled[3]);
    }
}

/// Appends `bytes`.
pub fn push_bytes(out: &mut Vec<u8>, bytes: &[u8])
    ensures
        final(out)@ == old(out)@ + bytes@,
{
    out.extend_from_slice(bytes);
    assert(out@ =~= old(out)@ + bytes@);
}

/// Reading a number back from its bytes.
pub proof fn lemma_le_u32_roundtrip(n: nat, rest: Seq<u8>)
    requires
        n <= u32::MAX,
    ensures
        le_u32(le_u32_bytes(n) + rest) == n,
{
    let bytes = le_u32_bytes(n) + rest;
    assert(bytes[0] == n % 256);
    assert(bytes[1] == (n / 256) % 256);
    assert(bytes[2] == (n / 65536) % 256);
    assert(bytes[3] == (n / 16777216) % 256);
}

/// Concatenating two rows of parts.
pub proof fn lemma_concat_add(a: Seq<Seq<u8>>, b: Seq<Seq<u8>>)
    ensures
        concat(a + b) == concat(a) + concat(b),
    decreases b.len(),
{
    if b.len() == 0 {
        assert(a + b =~= a);
        assert(concat(a) + concat(b) =~= concat(a));
    } else {
        lemma_concat_add(a, b.drop_last());
        assert((a + b).drop_last() =~= a + b.drop_last());
        assert(concat(a + b) =~= concat(a) + concat(b));
    }
}

/// Concatenating a single part.
pub proof fn lemma_concat_one(part: Seq<u8>)
    ensures
        concat(seq![part]) == part,
{
    assert(seq![part].drop_last() =~= Seq::<Seq<u8>>::empty());
    assert(concat(Seq::<Seq<u8>>::empty()) =~= Seq::<u8>::empty());
    assert(concat(seq![part]) =~= part);
}

/// Concatenating one part more.
pub proof fn lemma_concat_push(parts: Seq<Seq<u8>>, part: Seq<u8>)
    ensures
        concat(parts.push(part)) == concat(parts) + part,
{
    assert(parts.push(part).drop_last() =~= parts);
}

/// A run of parts stands in the whole behind the parts before it.
pub proof fn lemma_concat_range(parts: Seq<Seq<u8>>, i: int, j: int)
    requires
        0 <= i <= j <= parts.len(),
    ensures
        concat(parts.take(i)).len() <= concat(parts.take(j)).len() <= concat(parts).len(),
        concat(parts.subrange(i, j)).len() == concat(parts.take(j)).len() - concat(
            parts.take(i),
        ).len(),
        concat(parts.subrange(i, j)) == concat(parts).subrange(
            concat(parts.take(i)).len() as int,
            concat(parts.take(j)).len() as int,
        ),
{
    lemma_concat_add(parts.take(i), parts.subrange(i, j));
    assert(parts.take(i) + parts.subrange(i, j) =~= parts.take(j));
    lemma_concat_add(parts.take(j), parts.skip(j));
    assert(parts.take(j) + parts.skip(j) =~= parts);
    assert(concat(parts.subrange(i, j)) =~= concat(parts).subrange(
        concat(parts.take(i)).len() as int,
        concat(parts.take(j)).len() as int,
    ));
}

/// Parts of one width.
pub proof fn lemma_concat_uniform(parts: Seq<Seq<u8>>, width: nat)
    requires
        forall|i: int| 0 <= i < parts.len() ==> (#[trigger] parts[i]).len() == width,
    ensures
        concat(parts).len() == parts.len() * width,
    decreases parts.len(),
{
    if parts.len() > 0 {
        lemma_concat_uniform(parts.drop_last(), width);
        let n = parts.len() as int;
        assert(n * width == (n - 1) * width + width) by (nonlinear_arith);
    } else {
        assert(0 * width == 0) by (nonlinear_arith);
    }
}

/// What was written as a length-prefixed stream is read back as it was: the values of the stream
/// are those that it was made of.
pub proof fn law_stream_roundtrip(values: Seq<Seq<u8>>)
    requires
        forall|i: int| 0 <= i < values.len() ==> (#[trigger] values[i]).len() <= u32::MAX,
    ensures
        parse_values(concat(all_prefixed(values))) == Some(values),
    decreases values.len(),
{
    let stream = concat(all_prefixed(values));
    if values.len() == 0 {
        assert(all_prefixed(values) =~= Seq::<Seq<u8>>::empty());
        assert(values =~= Seq::<Seq<u8>>::empty());
    } else {
        let first = values[0];
        let rest = values.skip(1);
        assert(all_prefixed(values) =~= seq![prefixed(first)] + all_prefixed(rest));
        lemma_concat_add(seq![prefixed(first)], all_prefixed(rest));
        lemma_concat_one(prefixed(first));
        let tail = concat(all_prefixed(rest));
        assert(stream == prefixed(first) + tail);
        assert(stream =~= le_u32_bytes(first.len()) + (first + tail));
        lemma_le_u32_roundtrip(first.len(), first + tail);
        let end = 4 + first.len() as int;
        assert(stream.skip(end) =~= tail);
        assert(stream.subrange(4, end) =~= first);
        assert forall|i: int| 0 <= i < rest.len() implies (#[trigger] rest[i]).len()
            <= u32::MAX by {
            assert(rest[i] == values[i + 1]);
        }
        law_stream_roundtrip(rest);
        assert(seq![first] + rest =~= values);
    }
}

/// A stream that parses is the one that its values make, and each value's length fits its field.
pub proof fn lemma_parse_values_exact(stream: Seq<u8>)
    requires
        parse_values(stream) is Some,
    ensures
        concat(all_prefixed(parse_values(stream)->0)) == stream,
        forall|i: int|
            0 <= i < parse_values(stream)->0.len() ==> (#[trigger] parse_values(
                stream,
            )->0[i]).len() <= u32::MAX,
    decreases stream.len(),
{
    let values = parse_values(stream)->0;
    if stream.len() == 0 {
        assert(all_prefixed(values) =~= Seq::<Seq<u8>>::empty());
        assert(stream =~= Seq::<u8>::empty());
    } else {
        let end = 4 + le_u32(stream) as int;
        let rest = parse_values(stream.skip(end))->0;
        let first = stream.subrange(4, end);
        lemma_parse_values_exact(stream.skip(end));
        assert(all_prefixed(seq![first] + rest) =~= seq![prefixed(first)] + all_prefixed(rest));
        lemma_concat_add(seq![prefixed(first)], all_prefixed(rest));
        lemma_concat_one(prefixed(first));
        lemma_le_u32_inverse(stream);
        assert(stream =~= prefixed(first) + stream.skip(end));
    }
}

/// Spelling a number that was read gives the bytes that it was read from.
pub proof fn lemma_le_u32_inverse(bytes: Seq<u8>)
    requires
        bytes.len() >= 4,
    ensures
        le_u32_bytes(le_u32(bytes)) == bytes.take(4),
{
    let n = le_u32(bytes);
    assert(n % 256 == bytes[0]);
    assert((n / 256) % 256 == bytes[1]);
    assert((n / 65536) % 256 == bytes[2]);
    assert((n / 16777216) % 256 == bytes[3]);
    assert(le_u32_bytes(n) =~= bytes.take(4));
}

/// Where a value's length stands is where the values before it end.
pub proof fn lemma_value_start(values: Seq<Seq<u8>>, i: int)
    requires
        0 <= i <= values.len(),
    ensures
        value_start(values, i) == concat(all_prefixed(values).take(i)).len(),
    decreases i,
{
    if i > 0 {
        lemma_value_start(values, i - 1);
        assert(all_prefixed(values).take(i) =~= all_prefixed(values).take(i - 1).push(
            prefixed(values[i - 1]),
        ));
        lemma_concat_push(all_prefixed(values).take(i - 1), prefixed(values[i - 1]));
    }
}

/// A value stands in its stream behind its length.
pub proof fn lemma_value_in_stream(values: Seq<Seq<u8>>, i: int)
    requires
        0 <= i < values.len(),
    ensures
        0 <= value_start(values, i),
        value_start(values, i) + 4 + values[i].len() == value_start(values, i + 1),
        value_start(values, i + 1) <= concat(all_prefixed(values)).len(),
        concat(all_prefixed(values)).subrange(
            value_start(values, i) + 4,
            value_start(values, i + 1),
        ) == values[i],
{
    let parts = all_prefixed(values);
    lemma_value_start(values, i);
    lemma_value_start(values, i + 1);
    lemma_concat_range(parts, i, i + 1);
    assert(parts.subrange(i, i + 1) =~= seq![prefixed(values[i])]);
    lemma_concat_one(prefixed(values[i]));
    assert(concat(parts).subrange(value_start(values, i) + 4, value_start(values, i + 1))
        =~= prefixed(values[i]).skip(4));
    assert(prefixed(values[i]).skip(4) =~= values[i]);
}

/// Putting parts one behind the other: of no parts nothing, of one part that part, and of two rows
/// of parts first all of the one and then all of the other.
pub proof fn law_concat(part: Seq<u8>, a: Seq<Seq<u8>>, b: Seq<Seq<u8>>)
    ensures
        concat(Seq::empty()) == Seq::<u8>::empty(),
        concat(seq![part]) == part,
        concat(a + b) == concat(a) + concat(b),
{
    lemma_concat_one(part);
    lemma_concat_add(a, b);
}

/// A value stands behind four bytes that spell its length, the lowest byte first.
pub proof fn law_prefix_spells_length(value: Seq<u8>)
    requires
        value.len() <= u32::MAX,
    ensures
        prefixed(value).len() == 4 + value.len(),
        prefixed(value)[0] + 256 * prefixed(value)[1] + 65536 * prefixed(value)[2] + 16777216
            * prefixed(value)[3] == value.len(),
        prefixed(value).skip(4) == value,
{
    lemma_le_u32_roundtrip(value.len(), value);
    assert(prefixed(value).skip(4) =~= value);
}

/// The stream of a row of values is made value by value, each behind its length.
pub proof fn law_stream_grows_by_value(values: Seq<Seq<u8>>, value: Seq<u8>)
    ensures
        concat(all_prefixed(Seq::empty())) == Seq::<u8>::empty(),
        concat(all_prefixed(values.push(value))) == concat(all_prefixed(values)) + prefixed(value),
{
    assert(all_prefixed(Seq::<Seq<u8>>::empty()) =~= Seq::<Seq<u8>>::empty());
    assert(all_prefixed(values.push(value)) =~= all_prefixed(values).push(prefixed(value)));
    lemma_concat_push(all_prefixed(values), prefixed(value));
}

/// A stream is read from its start: the first four bytes spell the length of the first value, which
/// stands behind them, and the rest is read in the same way. A stream that ends within a value has
/// no values, and an empty stream has none to read.
pub proof fn law_stream_is_read_by_value(stream: Seq<u8>)
    ensures
        stream.len() == 0 ==> parse_values(stream) == Some(Seq::<Seq<u8>>::empty()),
        0 < stream.len() < 4 ==> parse_values(stream) is None,
        stream.len() >= 4 ==> {
            let n = stream[0] + 256 * stream[1] + 65536 * stream[2] + 16777216 * stream[3];
            &&& stream.len() < 4 + n ==> parse_values(stream) is None
            &&& stream.len() >= 4 + n ==> parse_values(stream) == match parse_values(
                stream.skip(4 + n),
            ) {
                None => None,
                Some(values) => Some(seq![stream.subrange(4, 4 + n)] + values),
            }
        },
{
}

/// In a stream of two values or more, the length of each stands where the value before it ends.
pub proof fn law_value_starts(values: Seq<Seq<u8>>, i: int)
    requires
        0 <= i < values.len(),
    ensures
        value_start(values, 0) == 0,
        value_start(values, i + 1) == value_start(values, i) + 4 + values[i].len(),
        value_start(values, values.len() as int) == concat(all_prefixed(values)).len(),
        concat(all_prefixed(values)).subrange(
            value_start(values, i) + 4,
            value_start(values, i) + 4 + values[i].len(),
        ) == values[i],
{
    lemma_value_in_stream(values, i);
    lemma_value_start(values, values.len() as int);
    assert(all_prefixed(values).take(values.len() as int) =~= all_prefixed(values));
}

} // verus!
