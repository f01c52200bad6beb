//! Packing GF(3) elements five to a byte, as base-3 digits, and reading them back.
use vstd::prelude::*;
use vstd::arithmetic::div_mod::*;
use vstd::arithmetic::mul::*;
use crate::f3::F3;

verus! {

/// `3^k`.
pub open spec fn pow3(k: nat) -> nat
    decreases k,
{
    if k == 0 {
        1
    } else {
        3 * pow3((k - 1) as nat)
    }
}

/// Every element of the sequence is well formed.
pub open spec fn all_wf(s: Seq<F3>) -> bool {
    forall|i: int| 0 <= i < s.len() ==> #[trigger] s[i].wf()
}

/// The integer whose base-3 digits, least significant first, are the values of `s`.
pub open spec fn pack(s: Seq<F3>) -> nat
    decreases s.len(),
{
    if s.len() == 0 {
        0
    } else {
        s[0].val() + 3 * pack(s.drop_first())
    }
}

/// The byte string written for `s`: one byte per group of five elements, the last
/// group possibly shorter.
pub open spec fn encode(s: Seq<F3>) -> Seq<u8>
    decreases s.len(),
{
    if s.len() == 0 {
        Seq::empty()
    } else if s.len() <= 5 {
        seq![pack(s) as u8]
    } else {
        seq![pack(s.take(5)) as u8] + encode(s.skip(5))
    }
}

/// The five base-3 digits of a byte, least significant first, each as a field element.
pub open spec fn digits(b: u8) -> Seq<F3> {
    Seq::new(5, |j: int| F3::of_nat((b as nat / pow3(j as nat)) % 3))
}

/// The elements read back from a byte string: five per byte.
pub open spec fn decode(bytes: Seq<u8>) -> Seq<F3>
    decreases bytes.len(),
{
    if bytes.len() == 0 {
        Seq::empty()
    } else {
        digits(bytes[0]) + decode(bytes.drop_first())
    }
}

/// Number of bytes used for `n` elements.
pub open spec fn serialized_len(n: nat) -> nat {
    n / 5 + if n % 5 == 0 {
        0nat
    } else {
        1nat
    }
}

proof fn lemma_pow3_small()
    ensures
        pow3(0) == 1,
        pow3(1) == 3,
        pow3(2) == 9,
        pow3(3) == 27,
        pow3(4) == 81,
        pow3(5) == 243,
{
    reveal_with_fuel(pow3, 6);
}

proof fn lemma_pow3_pos(k: nat)
    ensures
        pow3(k) >= 1,
    decreases k,
{
    if k > 0 {
        lemma_pow3_pos((k - 1) as nat);
    }
}

/// Appending an element adds its value times the next power of three.
proof fn lemma_pack_push(s: Seq<F3>, e: F3)
    ensures
        pack(s.push(e)) == pack(s) + e.val() * pow3(s.len()),
    decreases s.len(),
{
    if s.len() == 0 {
        assert(s.push(e).drop_first() =~= Seq::<F3>::empty());
        assert(pow3(0) == 1);
        assert(s.push(e)[0] == e);
        let q = s.push(e);
        assert(q.len() == 1);
        assert(pack(q.drop_first()) == 0);
        assert(pack(q) == q[0].val() + 3 * pack(q.drop_first()));
        assert(e.val() * pow3(0) == e.val());
    } else {
        assert(s.push(e).drop_first() =~= s.drop_first().push(e));
        assert(s.push(e)[0] == s[0]);
        assert(pow3(s.len()) == 3 * pow3((s.len() - 1) as nat));
        lemma_pack_push(s.drop_first(), e);
        assert(pack(s.push(e)) == s[0].val() + 3 * (pack(s.drop_first()) + e.val() * pow3(
            (s.len() - 1) as nat,
        )));
        assert(3 * (pack(s.drop_first()) + e.val() * pow3((s.len() - 1) as nat)) == 3 * pack(
            s.drop_first(),
        ) + e.val() * (3 * pow3((s.len() - 1) as nat))) by (nonlinear_arith);
        assert(pack(s) == s[0].val() + 3 * pack(s.drop_first()));
    }
}

/// A group of at most `k` digits packs below `3^k`.
proof fn lemma_pack_bound(s: Seq<F3>)
    requires
        all_wf(s),
    ensures
        pack(s) < pow3(s.len()),
    decreases s.len(),
{
    if s.len() > 0 {
        assert(s[0].wf());
        lemma_pack_bound(s.drop_first());
    }
}

/// The digits of a packed group are the group, padded with zeros up to five.
proof fn lemma_pack_digit(s: Seq<F3>, j: nat)
    requires
        all_wf(s),
    ensures
        j < s.len() ==> (pack(s) / pow3(j)) % 3 == s[j as int].val(),
        j >= s.len() ==> (pack(s) / pow3(j)) % 3 == 0,
    decreases j,
{
    lemma_pack_bound(s);
    lemma_pow3_pos(j);
    if s.len() == 0 {
        assert(pack(s) == 0);
        lemma_basic_div(0, pow3(j) as int);
    } else if j == 0 {
        assert(s[0].wf());
        assert(pack(s) / 1 == pack(s));
        lemma_mod_multiples_vanish(pack(s.drop_first()) as int, s[0].val() as int, 3);
        lemma_small_mod(s[0].val(), 3);
    } else {
        let t = s.drop_first();
        assert(all_wf(t)) by {
            assert forall|i: int| 0 <= i < t.len() implies #[trigger] t[i].wf() by {
                assert(t[i] == s[i + 1]);
            }
        }
        assert(s[0].wf());
        lemma_pack_digit(t, (j - 1) as nat);
        lemma_pow3_pos((j - 1) as nat);
        // pack(s) / 3^j == (pack(s) / 3) / 3^(j-1) == pack(t) / 3^(j-1)
        lemma_div_denominator(pack(s) as int, 3, pow3((j - 1) as nat) as int);
        assert(pack(s) == s[0].val() + 3 * pack(t));
        lemma_fundamental_div_mod_converse(
            pack(s) as int,
            3,
            pack(t) as int,
            s[0].val() as int,
        );
        if j - 1 < t.len() {
            assert(t[(j - 1) as int] == s[j as int]);
        }
    }
}

/// Reading back the bytes written for `s` gives `s` again, followed by zeros that
/// fill up the last byte.
pub proof fn lemma_decode_encode(s: Seq<F3>)
    requires
        all_wf(s),
    ensures
        decode(encode(s)).len() == 5 * serialized_len(s.len()),
        decode(encode(s)).take(s.len() as int) == s,
        forall|i: int|
            s.len() <= i < decode(encode(s)).len() ==> #[trigger] decode(encode(s))[i] == F3::zero_spec(),
    decreases s.len(),
{
    if s.len() == 0 {
        assert(decode(encode(s)) =~= Seq::<F3>::empty());
    } else {
        let c = if s.len() <= 5 { s } else { s.take(5) };
        assert(all_wf(c)) by {
            assert forall|i: int| 0 <= i < c.len() implies #[trigger] c[i].wf() by {
                assert(c[i] == s[i]);
            }
        }
        lemma_pack_bound(c);
        lemma_pow3_small();
        assert(pow3(c.len()) <= 243) by {
            lemma_pow3_mono(c.len(), 5);
        }
        let b = pack(c) as u8;
        assert(b as nat == pack(c));
        let d = digits(b);
        assert forall|j: int| 0 <= j < 5 implies #[trigger] d[j] == (if j < c.len() {
            c[j]
        } else {
            F3::zero_spec()
        }) by {
            lemma_pack_digit(c, j as nat);
            crate::f3::lemma_f3_of_nat(pack(c) / pow3(j as nat));
            if j < c.len() {
                assert(c[j].wf());
                crate::f3::lemma_f3_val_injective(d[j], c[j]);
            }
        }
        if s.len() <= 5 {
            assert(encode(s) == seq![b]);
            assert(seq![b].drop_first() =~= Seq::<u8>::empty());
            assert(decode(seq![b]) =~= d + decode(Seq::<u8>::empty()));
            assert(decode(encode(s)) =~= d);
            assert(d.take(s.len() as int) =~= s);
            assert(serialized_len(s.len()) == 1);
        } else {
            let rest = s.skip(5);
            assert(all_wf(rest)) by {
                assert forall|i: int| 0 <= i < rest.len() implies #[trigger] rest[i].wf() by {
                    assert(rest[i] == s[i + 5]);
                }
            }
            lemma_decode_encode(rest);
            assert(encode(s) == seq![b] + encode(rest));
            assert((seq![b] + encode(rest)).drop_first() =~= encode(rest));
            assert(decode(encode(s)) =~= d + decode(encode(rest)));
            assert(d =~= c);
            assert(s =~= c + rest);
            assert(serialized_len(s.len()) == 1 + serialized_len(rest.len())) by {
                assert(rest.len() == s.len() - 5);
            }
            assert(decode(encode(s)).take(s.len() as int) =~= s);
        }
    }
}

proof fn lemma_pow3_mono(a: nat, b: nat)
    requires
        a <= b,
    ensures
        pow3(a) <= pow3(b),
    decreases b,
{
    if a < b {
        lemma_pow3_mono(a, (b - 1) as nat);
    }
}

/// The number of bytes written for `s`.
pub proof fn lemma_encode_len(s: Seq<F3>)
    ensures
        encode(s).len() == serialized_len(s.len()),
    decreases s.len(),
{
    if s.len() > 5 {
        lemma_encode_len(s.skip(5));
    }
}

/// The serializer's pending elements and the bytes written after writing `e`: every fifth
/// element completes a byte.
pub open spec fn write_step(pending: Seq<F3>, bytes: Seq<u8>, e: F3) -> (Seq<F3>, Seq<u8>) {
    if pending.len() + 1 < 5 {
        (pending.push(e), bytes)
    } else {
        (Seq::empty(), bytes.push(pack(pending.push(e)) as u8))
    }
}

/// The pending elements and the bytes written after writing each element of `s` in turn.
pub open spec fn write_all(pending: Seq<F3>, bytes: Seq<u8>, s: Seq<F3>) -> (Seq<F3>, Seq<u8>)
    decreases s.len(),
{
    if s.len() == 0 {
        (pending, bytes)
    } else {
        let (p, b) = write_step(pending, bytes, s[0]);
        write_all(p, b, s.drop_first())
    }
}

/// The bytes after finishing: the incomplete last byte, if any elements are pending.
pub open spec fn finish_bytes(pending: Seq<F3>, bytes: Seq<u8>) -> Seq<u8> {
    if pending.len() == 0 {
        bytes
    } else {
        bytes.push(pack(pending) as u8)
    }
}

/// The reader's result and its next state (digits left in the current byte, the rest of
/// that byte, the position in `src`) after one read.
pub open spec fn read_step(remaining: nat, rest: nat, pos: nat, src: Seq<u8>) -> (Option<F3>, nat, nat, nat) {
    if remaining == 0 {
        if pos >= src.len() {
            (None, remaining, rest, pos)
        } else {
            (Some(F3::of_nat(src[pos as int] as nat)), 4, src[pos as int] as nat / 3, pos + 1)
        }
    } else {
        (Some(F3::of_nat(rest)), (remaining - 1) as nat, rest / 3, pos)
    }
}

/// The results of `n` reads in turn.
pub open spec fn read_all(remaining: nat, rest: nat, pos: nat, src: Seq<u8>, n: nat) -> Seq<Option<F3>>
    decreases n,
{
    if n == 0 {
        Seq::empty()
    } else {
        let (r, rem2, rest2, pos2) = read_step(remaining, rest, pos, src);
        seq![r] + read_all(rem2, rest2, pos2, src, (n - 1) as nat)
    }
}

/// The digits of the current byte not yet read.
spec fn left_digits(rest: nat, remaining: nat) -> Seq<F3> {
    Seq::new(remaining, |j: int| F3::of_nat((rest / pow3(j as nat)) % 3))
}

/// Writing from pending elements `p` onto bytes `b`, then finishing, appends the encoding
/// of `p` followed by `s`.
proof fn lemma_write_all_finish(p: Seq<F3>, b: Seq<u8>, s: Seq<F3>)
    requires
        p.len() < 5,
    ensures
        finish_bytes(write_all(p, b, s).0, write_all(p, b, s).1) == b + encode(p + s),
    decreases s.len(),
{
    if s.len() == 0 {
        assert(p + s =~= p);
        if p.len() == 0 {
            assert(encode(p) =~= Seq::<u8>::empty());
            assert(b + encode(p) =~= b);
        } else {
            assert(b + encode(p) =~= b.push(pack(p) as u8));
        }
    } else {
        let e = s[0];
        let rest = s.drop_first();
        if p.len() + 1 < 5 {
            assert(p.push(e) + rest =~= p + s);
            lemma_write_all_finish(p.push(e), b, rest);
        } else {
            let q = p + s;
            lemma_write_all_finish(Seq::empty(), b.push(pack(p.push(e)) as u8), rest);
            assert(Seq::<F3>::empty() + rest =~= rest);
            assert(q.take(5) =~= p.push(e));
            assert(q.skip(5) =~= rest);
            if q.len() <= 5 {
                assert(rest.len() == 0);
                assert(encode(rest) =~= Seq::<u8>::empty());
                assert(q =~= p.push(e));
                assert(b.push(pack(p.push(e)) as u8) + encode(rest) =~= b + encode(q));
            } else {
                assert(b.push(pack(p.push(e)) as u8) + encode(rest) =~= b + encode(q));
            }
        }
    }
}

/// Five elements come back from each byte.
proof fn lemma_decode_len(bytes: Seq<u8>)
    ensures
        decode(bytes).len() == 5 * bytes.len(),
    decreases bytes.len(),
{
    if bytes.len() > 0 {
        lemma_decode_len(bytes.drop_first());
    }
}

/// Reads from a reader state return the digits left in the current byte, then the
/// elements of the bytes from `pos` on.
proof fn lemma_read_all_decode(remaining: nat, rest: nat, pos: nat, src: Seq<u8>, n: nat)
    requires
        remaining <= 5,
        pos <= src.len(),
        n <= remaining + 5 * (src.len() - pos),
    ensures
        read_all(remaining, rest, pos, src, n) == Seq::new(
            n,
            |k: int| Some((left_digits(rest, remaining) + decode(src.skip(pos as int)))[k]),
        ),
    decreases n,
{
    let all = left_digits(rest, remaining) + decode(src.skip(pos as int));
    let target = Seq::new(n, |k: int| Some(all[k]));
    lemma_decode_len(src.skip(pos as int));
    if n > 0 {
        lemma_pow3_small();
        if remaining > 0 {
            lemma_read_all_decode((remaining - 1) as nat, rest / 3, pos, src, (n - 1) as nat);
            let all2 = left_digits(rest / 3, (remaining - 1) as nat) + decode(src.skip(pos as int));
            assert forall|k: int| 0 <= k < n - 1 implies all2[k] == all[k + 1] by {
                if k < remaining - 1 {
                    lemma_pow3_pos(k as nat);
                    lemma_div_denominator(rest as int, 3, pow3(k as nat) as int);
                    assert(pow3((k + 1) as nat) == 3 * pow3(k as nat));
                }
            }
            assert(all[0] == F3::of_nat(rest)) by {
                assert(rest / pow3(0) == rest);
                lemma_mod_twice(rest as int, 3);
            }
            assert(read_all(remaining, rest, pos, src, n) =~= target);
        } else {
            let b = src[pos as int];
            let x = src.skip(pos as int);
            assert(x[0] == b);
            assert(x.drop_first() =~= src.skip(pos + 1int));
            assert(decode(x) == digits(x[0]) + decode(x.drop_first()));
            lemma_decode_len(src.skip(pos + 1int));
            lemma_read_all_decode(4, b as nat / 3, pos + 1, src, (n - 1) as nat);
            let all2 = left_digits(b as nat / 3, 4) + decode(src.skip(pos + 1int));
            assert(left_digits(rest, 0) =~= Seq::<F3>::empty());
            assert(all =~= digits(b) + decode(src.skip(pos + 1int)));
            assert forall|k: int| 0 <= k < n - 1 implies all2[k] == all[k + 1] by {
                if k < 4 {
                    lemma_pow3_pos(k as nat);
                    lemma_div_denominator(b as int, 3, pow3(k as nat) as int);
                    assert(pow3((k + 1) as nat) == 3 * pow3(k as nat));
                }
            }
            assert(all[0] == F3::of_nat(b as nat)) by {
                assert(b as nat / pow3(0) == b as nat);
                lemma_mod_twice(b as int, 3);
            }
            assert(read_all(remaining, rest, pos, src, n) =~= target);
        }
    }
}

/// Round trip: the bytes that a fresh serializer writes for the elements of `s`, then
/// finishes with, are the encoding of `s`; and a fresh reader at the start of those bytes
/// returns the elements of `s` in order, one per read.
pub proof fn lemma_serialize_round_trip(s: Seq<F3>, rest: nat)
    requires
        all_wf(s),
    ensures
        finish_bytes(
            write_all(Seq::empty(), Seq::empty(), s).0,
            write_all(Seq::empty(), Seq::empty(), s).1,
        ) == encode(s),
        read_all(0, rest, 0, encode(s), s.len()) == Seq::new(s.len(), |k: int| Some(s[k])),
{
    lemma_write_all_finish(Seq::empty(), Seq::empty(), s);
    assert(Seq::<F3>::empty() + s =~= s);
    assert(Seq::<u8>::empty() + encode(s) =~= encode(s));
    lemma_decode_encode(s);
    lemma_encode_len(s);
    assert(encode(s).skip(0) =~= encode(s));
    assert(left_digits(rest, 0) + decode(encode(s)) =~= decode(encode(s)));
    assert(s.len() <= 5 * serialized_len(s.len()));
    lemma_read_all_decode(0, rest, 0, encode(s), s.len());
    assert forall|k: int| 0 <= k < s.len() implies decode(encode(s))[k] == s[k] by {
        assert(decode(encode(s)).take(s.len() as int)[k] == decode(encode(s))[k]);
    }
    assert(read_all(0, rest, 0, encode(s), s.len()) =~= Seq::new(s.len(), |k: int| Some(s[k])));
}

impl F3 {
    /// Zero, in specifications.
    pub open spec fn zero_spec() -> F3 {
        F3 { msb: 0, lsb: 0 }
    }
}

/// Writes GF(3) elements five to a byte.
pub struct F3BitSerializer {
    accumulator: u8,
    multiplier: u8,
    pending: Ghost<Seq<F3>>,
}

impl F3BitSerializer {
    /// The elements written since the last byte went out.
    pub closed spec fn pending(&self) -> Seq<F3> {
        self.pending@
    }

    /// The state agrees with the pending elements.
    pub closed spec fn wf(&self) -> bool {
        &&& self.pending@.len() < 5
        &&& all_wf(self.pending@)
        &&& self.multiplier as nat == pow3(self.pending@.len())
        &&& self.accumulator as nat == pack(self.pending@)
    }

    /// Number of bytes written for `n` elements.
    pub fn serialized_size(n: usize) -> (r: usize)
        ensures
            r == serialized_len(n as nat),
    {
        n / 5 + if n % 5 == 0 {
            0
        } else {
            1
        }
    }

    /// A serializer with nothing pending.
    pub fn new() -> (r: F3BitSerializer)
        ensures
            r.wf(),
            r.pending() == Seq::<F3>::empty(),
    {
        F3BitSerializer { accumulator: 0, multiplier: 1, pending: Ghost(Seq::empty()) }
    }

    /// Adds one element; every fifth element completes a byte, which is appended to `dst`.
    pub fn write(&mut self, dst: &mut Vec<u8>, e: F3)
        requires
            old(self).wf(),
            e.wf(),
        ensures
            final(self).wf(),
            old(self).pending().len() + 1 < 5 ==> final(self).pending() == old(self).pending().push(e)
                && final(dst)@ == old(dst)@,
            old(self).pending().len() + 1 == 5 ==> final(self).pending() == Seq::<F3>::empty()
                && final(dst)@ == old(dst)@.push(pack(old(self).pending().push(e)) as u8),
            (final(self).pending(), final(dst)@) == write_step(old(self).pending(), old(dst)@, e),
    {
        let ghost p = self.pending@;
        let value = e.to_u8();
        proof {
            lemma_pack_push(p, e);
            lemma_pack_bound(p);
            lemma_pow3_small();
            lemma_pow3_mono(p.len(), 4);
            assert(value * self.multiplier <= 2 * 81) by (nonlinear_arith)
                requires
                    value <= 2,
                    self.multiplier <= 81,
            ;
            assert(all_wf(p.push(e))) by {
                assert forall|i: int| 0 <= i < p.len() + 1 implies #[trigger] p.push(e)[i].wf() by {
                    if i < p.len() {
                        assert(p.push(e)[i] == p[i]);
                    }
                }
            }
        }
        self.accumulator = self.accumulator + value * self.multiplier;
        self.multiplier = self.multiplier * 3;
        self.pending = Ghost(p.push(e));
        if self.multiplier >= 243 {
            proof {
                if p.len() < 4 {
                    lemma_pow3_mono(p.len() + 1, 4);
                }
            }
            dst.push(self.accumulator);
            self.accumulator = 0;
            self.multiplier = 1;
            self.pending = Ghost(Seq::empty());
        } else {
            proof {
                if p.len() == 4 {
                    lemma_pow3_small();
                }
            }
        }
    }

    /// Writes out the incomplete last byte, if any elements are pending.
    pub fn finish(self, dst: &mut Vec<u8>)
        requires
            self.wf(),
        ensures
            self.pending().len() == 0 ==> final(dst)@ == old(dst)@,
            self.pending().len() > 0 ==> final(dst)@ == old(dst)@.push(pack(self.pending()) as u8),
            final(dst)@ == finish_bytes(self.pending(), old(dst)@),
    {
        if self.multiplier > 1 {
            dst.push(self.accumulator);
        } else {
            proof {
                if self.pending@.len() > 0 {
                    lemma_pow3_mono(1, self.pending@.len());
                    lemma_pow3_small();
                }
            }
        }
    }
}

/// Reads GF(3) elements back, five from each byte.
pub struct F3BitDeserializer {
    accumulator: u8,
    counter: u8,
}

impl F3BitDeserializer {
    /// Digits of the current byte not yet returned.
    pub closed spec fn remaining(&self) -> nat {
        self.counter as nat
    }

    /// The rest of the current byte.
    pub closed spec fn rest(&self) -> nat {
        self.accumulator as nat
    }

    /// A deserializer with no byte loaded.
    pub fn new() -> (r: F3BitDeserializer)
        ensures
            r.remaining() == 0,
    {
        F3BitDeserializer { accumulator: 0, counter: 0 }
    }

    /// Returns the next element: the next base-3 digit of the current byte, loading the
    /// byte at `*pos` of `src` first when the current one is used up. Returns `None`
    /// when a byte is needed and `src` has none left.
    pub fn read(&mut self, src: &[u8], pos: &mut usize) -> (r: Option<F3>)
        requires
            old(self).remaining() <= 5,
        ensures
            old(self).remaining() == 0 && *old(pos) >= src.len() <==> r is None,
            r is None ==> *final(self) == *old(self) && *final(pos) == *old(pos),
            old(self).remaining() == 0 && *old(pos) < src.len() ==> {
                &&& *final(pos) == *old(pos) + 1
                &&& r == Some(F3::of_nat(src[*old(pos) as int] as nat))
                &&& final(self).rest() == src[*old(pos) as int] as nat / 3
                &&& final(self).remaining() == 4
            },
            old(self).remaining() > 0 ==> {
                &&& *final(pos) == *old(pos)
                &&& r == Some(F3::of_nat(old(self).rest()))
                &&& final(self).rest() == old(self).rest() / 3
                &&& final(self).remaining() == old(self).remaining() - 1
            },
            (r, final(self).remaining(), final(self).rest(), *final(pos) as nat) == read_step(
                old(self).remaining(),
                old(self).rest(),
                *old(pos) as nat,
                src@,
            ),
    {
        if self.counter == 0 {
            if *pos >= src.len() {
                return None;
            }
            self.accumulator = src[*pos];
            *pos = *pos + 1;
            self.counter = 5;
        }
        let value = self.accumulator % 3;
        self.accumulator = self.accumulator / 3;
        self.counter = self.counter - 1;
        let out = F3::from_u8_mod(value);
        proof {
            crate::f3::lemma_f3_of_nat(value as nat);
            crate::f3::lemma_f3_val_injective(out, F3::of_nat(value as nat));
            lemma_mod_twice(value as int, 3);
        }
        Some(out)
    }
}

} // verus!
