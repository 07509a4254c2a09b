//! `H`/`R` hash expressions and the CRC-32 they are keyed on.
//!
//! `h`, `h/15`, `h(0-29)`, `h(30-59)/10` (and the `r` random forms) are
//! rewritten into ordinary numeric cron syntax before the field is expanded.
//! The value picked for `h` is
//! `((crc32(hash_id) >> field_index) % (range_end - range_begin + 1)) + range_begin`.
use vstd::prelude::*;
use crate::consts::{field_range, range_high, range_low};
use crate::error::CroniterError;
use crate::text::{
    append_chars, append_int, chars_of, decimal, digit_run, parse_digits, push_char, string_of,
    sub_chars, is_ascii_digit, all_digits, digits_value, lemma_digit_run_unique,
};

verus! {

/// One step of the reflected CRC-32 (polynomial 0xEDB88320) over one bit.
pub open spec fn crc_bit(c: u32) -> u32 {
    if c & 1 != 0 { 0xEDB8_8320u32 ^ (c >> 1u32) } else { c >> 1u32 }
}

/// Eight steps: one byte's worth.
pub open spec fn crc_byte(c: u32) -> u32 {
    crc_bit(crc_bit(crc_bit(crc_bit(crc_bit(crc_bit(crc_bit(crc_bit(c))))))))
}

/// The running CRC register after `data`, starting from all ones.
pub open spec fn crc_register(data: Seq<u8>) -> u32
    decreases data.len(),
{
    if data.len() == 0 {
        0xFFFF_FFFFu32
    } else {
        crc_byte(crc_register(data.drop_last()) ^ (data.last() as u32))
    }
}

/// CRC-32 (IEEE 802.3, the reflected polynomial `0xEDB88320`), as zlib's
/// `crc32` computes it.
pub open spec fn spec_crc32(data: Seq<u8>) -> u32 {
    crc_register(data) ^ 0xFFFF_FFFFu32
}

fn crc_byte_exec(c: u32) -> (r: u32)
    ensures
        r == crc_byte(c),
{
    let mut crc = c;
    crc = if crc & 1 != 0 { 0xEDB8_8320u32 ^ (crc >> 1u32) } else { crc >> 1u32 };
    crc = if crc & 1 != 0 { 0xEDB8_8320u32 ^ (crc >> 1u32) } else { crc >> 1u32 };
    crc = if crc & 1 != 0 { 0xEDB8_8320u32 ^ (crc >> 1u32) } else { crc >> 1u32 };
    crc = if crc & 1 != 0 { 0xEDB8_8320u32 ^ (crc >> 1u32) } else { crc >> 1u32 };
    crc = if crc & 1 != 0 { 0xEDB8_8320u32 ^ (crc >> 1u32) } else { crc >> 1u32 };
    crc = if crc & 1 != 0 { 0xEDB8_8320u32 ^ (crc >> 1u32) } else { crc >> 1u32 };
    crc = if crc & 1 != 0 { 0xEDB8_8320u32 ^ (crc >> 1u32) } else { crc >> 1u32 };
    crc = if crc & 1 != 0 { 0xEDB8_8320u32 ^ (crc >> 1u32) } else { crc >> 1u32 };
    crc
}

/// The table-driven byte step equals eight bit steps: the bits above the
/// low byte only shift down.
proof fn lemma_crc_table_step(x: u32)
    ensures
        crc_byte(x) == crc_byte(x & 0xFF) ^ (x >> 8u32),
{
    assert(crc_byte(x) == crc_byte(x & 0xFF) ^ (x >> 8u32)) by (bit_vector);
}

/// CRC-32 (IEEE 802.3), as zlib's `crc32` computes it.
pub fn crc32(data: &[u8]) -> (r: u32)
    ensures
        r == spec_crc32(data@),
{
    let mut table: Vec<u32> = Vec::new();
    let mut i: u32 = 0;
    while i < 256
        invariant
            i <= 256,
            table@.len() == i,
            forall|j: int| 0 <= j < i ==> #[trigger] table@[j] == crc_byte(j as u32),
        decreases 256 - i,
    {
        table.push(crc_byte_exec(i));
        i = i + 1;
    }
    let mut crc: u32 = 0xFFFF_FFFF;
    let mut k: usize = 0;
    while k < data.len()
        invariant
            k <= data@.len(),
            table@.len() == 256,
            forall|j: int| 0 <= j < 256 ==> #[trigger] table@[j] == crc_byte(j as u32),
            crc == crc_register(data@.subrange(0, k as int)),
        decreases data.len() - k,
    {
        let byte = data[k];
        let idx = ((crc ^ byte as u32) & 0xFF) as usize;
        proof {
            let x = crc ^ (byte as u32);
            lemma_crc_table_step(x);
            assert(x & 0xFF < 256) by (bit_vector);
            let b32 = byte as u32;
            let c0 = crc;
            assert((c0 ^ b32) >> 8u32 == c0 >> 8u32) by (bit_vector)
                requires
                    b32 < 256;
            assert(data@.subrange(0, k + 1).drop_last() =~= data@.subrange(0, k as int));
            assert(data@.subrange(0, k + 1).last() == byte);
        }
        crc = table[idx] ^ (crc >> 8u32);
        k = k + 1;
    }
    assert(data@.subrange(0, data@.len() as int) =~= data@);
    crc ^ 0xFFFF_FFFF
}

/// The value a hash expression picks within `[begin, end]` from the key
/// `crc`: `((crc >> idx) % (end - begin + 1)) + begin`.
pub open spec fn hash_pick(idx: int, crc: int, begin: int, end: int) -> int {
    ((crc as u64 >> idx as u64) as int) % (end - begin + 1) + begin
}

/// Nanoseconds since the Unix epoch from the system clock
/// (`SystemTime::now().duration_since(UNIX_EPOCH)`), truncated to 64 bits;
/// `None` when the clock is before the epoch. Nothing is claimed of the
/// value: it depends on when it is called.
#[verifier::external_body]
fn clock_nanos() -> (r: Option<u64>) {
    match std::time::SystemTime::now().duration_since(std::time::UNIX_EPOCH) {
        Ok(d) => Some(d.as_nanos() as u64),
        Err(_) => None,
    }
}

/// The high 32 bits of one xorshift64* step from `seed`.
pub open spec fn xorshift_star(seed: u64) -> u32 {
    let a: u64 = seed ^ (seed >> 12u64);
    let b: u64 = a ^ (a << 25u64);
    let c: u64 = b ^ (b >> 27u64);
    let m: u64 = ((c as nat * 0x2545_F491_4F6C_DD1Dnat) % 0x1_0000_0000_0000_0000nat) as u64;
    (m >> 32u64) as u32
}

/// An arbitrary 32-bit value for the `r` (random) hash form: one
/// xorshift64* step from an odd seed taken from the clock (a fixed odd
/// seed when the clock is before the epoch).
fn random_u32() -> (r: u32)
    ensures
        exists|seed: u64| seed % 2 == 1 && r == xorshift_star(seed),
{
    let mut x: u64 = match clock_nanos() {
        Some(n) => {
            assert((n | 1u64) % 2 == 1) by (bit_vector);
            n | 1
        },
        None => 0x2545_F491_4F6C_DD1D,
    };
    let ghost seed: u64 = x;
    x = x ^ (x >> 12u64);
    x = x ^ (x << 25u64);
    x = x ^ (x >> 27u64);
    let r: u32 = (x.wrapping_mul(0x2545_F491_4F6C_DD1D) >> 32u64) as u32;
    assert(r == xorshift_star(seed));
    r
}

/// Whether `hash_type` is the random form `r`.
fn is_random_form(hash_type: &str) -> (r: bool)
    ensures
        r == (hash_type@ == seq!['r']),
{
    let v = chars_of(hash_type);
    if v.len() != 1 {
        return false;
    }
    assert(v@ == seq![v@[0]] ==> true);
    if v[0] == 'r' {
        assert(v@ =~= seq!['r']);
        true
    } else {
        false
    }
}

/// The parts of a hash expression: `h` or `r` (`random`), an optional
/// `(begin-end)` range and an optional `/divisor`, each number given by its
/// digits.
pub struct HashForm {
    pub random: bool,
    pub range: Option<(Seq<char>, Seq<char>)>,
    pub divisor: Option<Seq<char>>,
}

pub open spec fn range_text(range: Option<(Seq<char>, Seq<char>)>) -> Seq<char> {
    match range {
        Some((a, b)) => seq!['('] + a + seq!['-'] + b + seq![')'],
        None => Seq::empty(),
    }
}

pub open spec fn divisor_text(divisor: Option<Seq<char>>) -> Seq<char> {
    match divisor {
        Some(d) => seq!['/'] + d,
        None => Seq::empty(),
    }
}

pub open spec fn head_char(random: bool) -> char {
    if random { 'r' } else { 'h' }
}

/// The text of a hash expression: `^(h|r)(\(\d+-\d+\))?(/\d+)?$`.
pub open spec fn hash_text(f: HashForm) -> Seq<char> {
    seq![head_char(f.random)] + range_text(f.range) + divisor_text(f.divisor)
}

pub open spec fn form_digits_ok(f: HashForm) -> bool {
    &&& (f.range matches Some((a, b)) ==> all_digits(a) && all_digits(b))
    &&& (f.divisor matches Some(d) ==> all_digits(d))
}

/// `s` is the hash expression `f`.
pub open spec fn is_hash_expr(s: Seq<char>, f: HashForm) -> bool {
    form_digits_ok(f) && hash_text(f) == s
}

/// Where each part of a hash expression sits in its text.
proof fn lemma_hash_layout(f: HashForm)
    ensures
        ({
            let s = hash_text(f);
            let rt = range_text(f.range);
            let dt = divisor_text(f.divisor);
            &&& s.len() as int == 1 + rt.len() as int + dt.len() as int
            &&& s[0] == head_char(f.random)
            &&& forall|i: int| 0 <= i < rt.len() as int ==> #[trigger] s[1 + i] == rt[i]
            &&& forall|i: int| 0 <= i < dt.len() as int ==> #[trigger] s[1 + rt.len() as int + i] == dt[i]
            &&& (f.range matches Some((a, b)) ==> {
                &&& rt.len() as int == 3 + a.len() as int + b.len() as int
                &&& rt[0] == '('
                &&& (forall|i: int| 0 <= i < a.len() as int ==> #[trigger] rt[1 + i] == a[i])
                &&& rt[1 + a.len() as int] == '-'
                &&& (forall|i: int| 0 <= i < b.len() as int ==> #[trigger] rt[2 + a.len() as int + i] == b[i])
                &&& rt[2 + a.len() as int + b.len() as int] == ')'
            })
            &&& (f.range is None ==> rt.len() as int == 0)
            &&& (f.divisor matches Some(d) ==> {
                &&& dt.len() as int == 1 + d.len() as int
                &&& dt[0] == '/'
                &&& (forall|i: int| 0 <= i < d.len() as int ==> #[trigger] dt[1 + i] == d[i])
            })
            &&& (f.divisor is None ==> dt.len() as int == 0)
        }),
{
    let s = hash_text(f);
    let rt = range_text(f.range);
    let dt = divisor_text(f.divisor);
    assert forall|i: int| 0 <= i < rt.len() as int implies #[trigger] s[1 + i] == rt[i] by {
        assert((seq![head_char(f.random)] + rt)[1 + i] == rt[i]);
    }
    if let Some((a, b)) = f.range {
        let p1 = seq!['('] + a;
        let p2 = p1 + seq!['-'];
        let p3 = p2 + b;
        assert(rt == p3 + seq![')']);
        assert forall|i: int| 0 <= i < a.len() as int implies #[trigger] rt[1 + i] == a[i] by {
            assert(p1[1 + i] == a[i]);
            assert(p3[1 + i] == p2[1 + i]);
        }
        assert(p2[1 + a.len() as int] == '-');
        assert forall|i: int| 0 <= i < b.len() as int implies #[trigger] rt[2 + a.len() as int + i] == b[i] by {
            assert(p3[2 + a.len() as int + i] == b[i]);
        }
    }
}

/// A text is the hash expression of at most one form.
pub proof fn lemma_hash_unique(s: Seq<char>, f1: HashForm, f2: HashForm)
    requires
        is_hash_expr(s, f1),
        is_hash_expr(s, f2),
    ensures
        f1 == f2,
{
    lemma_hash_layout(f1);
    lemma_hash_layout(f2);
    let rt1 = range_text(f1.range);
    let rt2 = range_text(f2.range);
    // A range starts with `(`, a divisor with `/`.
    if f1.range is Some && f2.range is None {
        assert(s[1int] == rt1[0]);
        if f2.divisor is Some {
            assert(s[1 + rt2.len() as int ] == divisor_text(f2.divisor)[0]);
        }
    }
    if f2.range is Some && f1.range is None {
        assert(s[1int] == rt2[0]);
        if f1.divisor is Some {
            assert(s[1 + rt1.len() as int ] == divisor_text(f1.divisor)[0]);
        }
    }
    if let (Some((a1, b1)), Some((a2, b2))) = (f1.range, f2.range) {
        assert forall|i: int| 2 <= i < 2 + a1.len() as int implies #[trigger] is_ascii_digit(s[i]) by {
            assert(s[1 + (1 + (i - 2))] == rt1[1 + (i - 2)]);
            assert(is_ascii_digit(a1[i - 2]));
        }
        assert forall|i: int| 2 <= i < 2 + a2.len() as int implies #[trigger] is_ascii_digit(s[i]) by {
            assert(s[1 + (1 + (i - 2))] == rt2[1 + (i - 2)]);
            assert(is_ascii_digit(a2[i - 2]));
        }
        assert(s[1 + (1 + a1.len() as int)] == rt1[1 + a1.len() as int]);
        assert(s[1 + (1 + a2.len() as int)] == rt2[1 + a2.len() as int]);
        lemma_digit_run_unique(s, 2, a1.len() as int, a2.len() as int);
        assert(a1 =~= a2) by {
            assert forall|i: int| 0 <= i < a1.len() as int implies a1[i] == a2[i] by {
                assert(s[1 + (1 + i)] == rt1[1 + i]);
                assert(s[1 + (1 + i)] == rt2[1 + i]);
            }
        }
        let j = 3 + a1.len() as int;
        assert forall|i: int| j <= i < j + b1.len() as int implies #[trigger] is_ascii_digit(s[i]) by {
            assert(s[1 + (2 + a1.len() as int + (i - j))] == rt1[2 + a1.len() as int + (i - j)]);
            assert(is_ascii_digit(b1[i - j]));
        }
        assert forall|i: int| j <= i < j + b2.len() as int implies #[trigger] is_ascii_digit(s[i]) by {
            assert(s[1 + (2 + a2.len() as int + (i - j))] == rt2[2 + a2.len() as int + (i - j)]);
            assert(is_ascii_digit(b2[i - j]));
        }
        assert(s[1 + (2 + a1.len() as int + b1.len() as int)] == rt1[2 + a1.len() as int + b1.len() as int]);
        assert(s[1 + (2 + a2.len() as int + b2.len() as int)] == rt2[2 + a2.len() as int + b2.len() as int]);
        lemma_digit_run_unique(s, j, b1.len() as int, b2.len() as int);
        assert(b1 =~= b2) by {
            assert forall|i: int| 0 <= i < b1.len() as int implies b1[i] == b2[i] by {
                assert(s[1 + (2 + a1.len() as int + i)] == rt1[2 + a1.len() as int + i]);
                assert(s[1 + (2 + a2.len() as int + i)] == rt2[2 + a2.len() as int + i]);
            }
        }
    }
    assert(rt1.len() as int == rt2.len() as int);
    let dt1 = divisor_text(f1.divisor);
    let dt2 = divisor_text(f2.divisor);
    if let (Some(d1), Some(d2)) = (f1.divisor, f2.divisor) {
        assert(d1 =~= d2) by {
            assert forall|i: int| 0 <= i < d1.len() as int implies d1[i] == d2[i] by {
                assert(s[1 + rt1.len() as int + (1 + i)] == dt1[1 + i]);
                assert(s[1 + rt2.len() as int + (1 + i)] == dt2[1 + i]);
            }
        }
    }
}

/// A text laid out as the parts of `f` say is the hash expression `f`.
proof fn lemma_found_form(v: Seq<char>, f: HashForm, i: int)
    requires
        v.len() as int >= 1,
        v[0] == head_char(f.random),
        f.range matches Some((a, b)) ==> {
            &&& v.len() as int > 3 + a.len() as int + b.len() as int
            &&& v[1] == '('
            &&& a == v.subrange(2, 2 + a.len() as int)
            &&& a.len() as int > 0
            &&& (forall|q: int| 2 <= q < 2 + a.len() as int ==> #[trigger] is_ascii_digit(v[q]))
            &&& v[2 + a.len() as int] == '-'
            &&& b == v.subrange(3 + a.len() as int, 3 + a.len() as int + b.len() as int)
            &&& b.len() as int > 0
            &&& (forall|q: int| 3 + a.len() as int <= q < 3 + a.len() as int + b.len() as int ==> #[trigger] is_ascii_digit(v[q]))
            &&& v[3 + a.len() as int + b.len() as int] == ')'
            &&& i == 4 + a.len() as int + b.len() as int
        },
        f.range is None ==> i == 1,
        f.divisor matches Some(d) ==> {
            &&& i < v.len() as int
            &&& v[i] == '/'
            &&& d == v.subrange(i + 1, v.len() as int)
            &&& d.len() as int > 0
            &&& (forall|q: int| i + 1 <= q < v.len() as int ==> #[trigger] is_ascii_digit(v[q]))
        },
        f.divisor is None ==> i == v.len() as int,
    ensures
        is_hash_expr(v, f),
{
    let t = hash_text(f);
    lemma_hash_layout(f);
    let rt = range_text(f.range);
    let dt = divisor_text(f.divisor);
    if let Some((a, b)) = f.range {
        assert forall|q: int| 0 <= q < a.len() as int implies #[trigger] is_ascii_digit(a[q]) by {
            assert(a[q] == v[2 + q]);
        }
        assert forall|q: int| 0 <= q < b.len() as int implies #[trigger] is_ascii_digit(b[q]) by {
            assert(b[q] == v[3 + a.len() as int + q]);
        }
    }
    if let Some(d) = f.divisor {
        assert forall|q: int| 0 <= q < d.len() as int implies #[trigger] is_ascii_digit(d[q]) by {
            assert(d[q] == v[i + 1 + q]);
        }
    }
    assert(t.len() as int == v.len() as int);
    assert forall|q: int| 0 <= q < t.len() as int implies t[q] == v[q] by {
        if q == 0 {
        } else if q < 1 + rt.len() as int {
            assert(t[1 + (q - 1)] == rt[q - 1]);
            let (a, b) = f.range->0;
            if q == 1 {
            } else if q < 2 + a.len() as int {
                assert(rt[1 + (q - 2)] == a[q - 2]);
            } else if q == 2 + a.len() as int {
            } else if q < 3 + a.len() as int + b.len() as int {
                assert(rt[2 + a.len() as int + (q - 3 - a.len() as int)] == b[q - 3 - a.len() as int]);
            }
        } else {
            assert(t[1 + rt.len() as int + (q - 1 - rt.len() as int)] == dt[q - 1 - rt.len() as int]);
            let d = f.divisor->0;
            if q > 1 + rt.len() as int {
                assert(dt[1 + (q - 2 - rt.len() as int)] == d[q - 2 - rt.len() as int]);
            }
        }
    }
    assert(t =~= v);
}

/// The parts of a hash expression as found in a text.
struct HashParts {
    random: bool,
    range: Option<(Vec<char>, Vec<char>)>,
    divisor: Option<Vec<char>>,
}

impl HashParts {
    spec fn form(&self) -> HashForm {
        HashForm {
            random: self.random,
            range: match self.range {
                Some((a, b)) => Some((a@, b@)),
                None => None,
            },
            divisor: match self.divisor {
                Some(d) => Some(d@),
                None => None,
            },
        }
    }
}

/// Recognises the optional `(begin-end)` after the head of a hash
/// expression: where it ends (`i`, the index after it) and its parts.
fn parse_hash_range(v: &Vec<char>) -> (r: Option<(Option<(Vec<char>, Vec<char>)>, usize)>)
    requires
        v@.len() >= 1,
    ensures
        r is None ==> forall|f: HashForm| !is_hash_expr(v@, f),
        r matches Some((rng, i)) ==> {
            &&& 1 <= i <= v@.len()
            &&& (forall|f: HashForm| #[trigger] is_hash_expr(v@, f) ==> range_text(f.range).len() == i - 1)
            &&& (rng is None ==> i == 1)
            &&& (rng matches Some((a, b)) ==> {
                &&& v@.len() > 3 + a@.len() + b@.len()
                &&& v@[1] == '('
                &&& a@ == v@.subrange(2, 2 + a@.len() as int)
                &&& a@.len() > 0
                &&& (forall|q: int| 2 <= q < 2 + a@.len() ==> #[trigger] is_ascii_digit(v@[q]))
                &&& v@[2 + a@.len() as int] == '-'
                &&& b@ == v@.subrange(3 + a@.len() as int, 3 + a@.len() + b@.len() as int)
                &&& b@.len() > 0
                &&& (forall|q: int| 3 + a@.len() <= q < 3 + a@.len() + b@.len() ==> #[trigger] is_ascii_digit(v@[q]))
                &&& v@[3 + a@.len() + b@.len() as int] == ')'
                &&& i == 4 + a@.len() + b@.len()
            })
        },
{
    let n = v.len();
    let mut i: usize = 1;
    let mut range: Option<(Vec<char>, Vec<char>)> = None;
    if n > 1 && v[1] == '(' {
        let j = digit_run(v, 2);
        proof {
            // Any hash form of `v` has a range whose begin ends where this
            // run does.
            assert forall|f: HashForm| #[trigger] is_hash_expr(v@, f) implies
                (f.range matches Some((a, b)) && 2 + a.len() as int == j) by {
                lemma_hash_layout(f);
                let rt = range_text(f.range);
                if f.range is None {
                    if f.divisor is Some {
                        assert(v@[1 + rt.len() as int ] == divisor_text(f.divisor)[0]);
                    }
                } else {
                    let (a, b) = f.range->0;
                    assert forall|k: int| 2 <= k < 2 + a.len() as int implies #[trigger] is_ascii_digit(v@[k]) by {
                        assert(v@[1 + (1 + (k - 2))] == rt[1 + (k - 2)]);
                        assert(is_ascii_digit(a[k - 2]));
                    }
                    assert(v@[1 + (1 + a.len() as int)] == rt[1 + a.len() as int]);
                    lemma_digit_run_unique(v@, 2, a.len() as int, j - 2);
                }
            }
        }
        if j == 2 || j == n || v[j] != '-' {
            proof {
                assert forall|f: HashForm| !is_hash_expr(v@, f) by {
                    if is_hash_expr(v@, f) {
                        lemma_hash_layout(f);
                        let (a, b) = f.range->0;
                        let rt = range_text(f.range);
                        assert(v@[1 + (1 + a.len() as int)] == rt[1 + a.len() as int]);
                    }
                }
            }
            return None;
        }
        let k = digit_run(v, j + 1);
        proof {
            assert forall|f: HashForm| #[trigger] is_hash_expr(v@, f) implies
                (f.range matches Some((a, b)) && 2 + a.len() as int == j && j + 1 + b.len() as int == k) by {
                lemma_hash_layout(f);
                let (a, b) = f.range->0;
                let rt = range_text(f.range);
                assert forall|q: int| j + 1 <= q < j + 1 + b.len() as int implies #[trigger] is_ascii_digit(v@[q]) by {
                    assert(v@[1 + (2 + a.len() as int + (q - j - 1))] == rt[2 + a.len() as int + (q - j - 1)]);
                    assert(is_ascii_digit(b[q - j - 1]));
                }
                assert(v@[1 + (2 + a.len() as int + b.len() as int)] == rt[2 + a.len() as int + b.len() as int]);
                lemma_digit_run_unique(v@, j + 1, b.len() as int, k - j - 1);
            }
        }
        if k == j + 1 || k == n || v[k] != ')' {
            proof {
                assert forall|f: HashForm| !is_hash_expr(v@, f) by {
                    if is_hash_expr(v@, f) {
                        lemma_hash_layout(f);
                        let (a, b) = f.range->0;
                        let rt = range_text(f.range);
                        assert(v@[1 + (2 + a.len() as int + b.len() as int)] == rt[2 + a.len() as int + b.len() as int]);
                    }
                }
            }
            return None;
        }
        range = Some((sub_chars(v, 2, j), sub_chars(v, j + 1, k)));
        i = k + 1;
    } else {
        proof {
            assert forall|f: HashForm| #[trigger] is_hash_expr(v@, f) implies f.range is None by {
                lemma_hash_layout(f);
                if f.range is Some {
                    assert(v@[1int] == range_text(f.range)[0]);
                }
            }
        }
    }
    proof {
        assert forall|f: HashForm| #[trigger] is_hash_expr(v@, f) implies range_text(f.range).len() == i - 1 by {
            lemma_hash_layout(f);
        }
    }
    Some((range, i))
}

/// Recognises a hash expression; `None` when `v` is not one.
fn parse_hash_form(v: &Vec<char>) -> (r: Option<HashParts>)
    ensures
        r matches Some(p) ==> is_hash_expr(v@, p.form()),
        r is None ==> forall|f: HashForm| !is_hash_expr(v@, f),
{
    let n = v.len();
    if n == 0 || (v[0] != 'h' && v[0] != 'r') {
        proof {
            assert forall|f: HashForm| !is_hash_expr(v@, f) by {
                if is_hash_expr(v@, f) {
                    lemma_hash_layout(f);
                }
            }
        }
        return None;
    }
    let random = v[0] == 'r';
    let (range, i) = match parse_hash_range(v) {
        Some(p) => p,
        None => { return None; },
    };
    let ghost rlen: int = i - 1;
    assert(forall|f: HashForm| #[trigger] is_hash_expr(v@, f) ==> range_text(f.range).len() as int == rlen) by {
        assert forall|f: HashForm| #[trigger] is_hash_expr(v@, f) implies range_text(f.range).len() as int == rlen by {
            lemma_hash_layout(f);
        }
    }
    let mut divisor: Option<Vec<char>> = None;
    if i < n {
        if v[i] != '/' {
            proof {
                assert forall|f: HashForm| !is_hash_expr(v@, f) by {
                    if is_hash_expr(v@, f) {
                        lemma_hash_layout(f);
                        let dt = divisor_text(f.divisor);
                        assert(v@[1 + rlen ] == dt[0]);
                    }
                }
            }
            return None;
        }
        let e = digit_run(v, i + 1);
        if e == i + 1 || e != n {
            proof {
                assert forall|f: HashForm| !is_hash_expr(v@, f) by {
                    if is_hash_expr(v@, f) {
                        lemma_hash_layout(f);
                        let dt = divisor_text(f.divisor);
                        let d = f.divisor->0;
                        assert forall|q: int| i + 1 <= q < i + 1 + d.len() as int implies #[trigger] is_ascii_digit(v@[q]) by {
                            assert(v@[1 + rlen + (1 + (q - i - 1))] == dt[1 + (q - i - 1)]);
                            assert(is_ascii_digit(d[q - i - 1]));
                        }
                        lemma_digit_run_unique(v@, i + 1, d.len() as int, e - i - 1);
                    }
                }
            }
            return None;
        }
        divisor = Some(sub_chars(v, i + 1, n));
    }
    let parts = HashParts { random, range, divisor };
    proof {
        lemma_found_form(v@, parts.form(), i as int);
    }
    Some(parts)
}

/// The value picked from the key `crc` (the part of `hash_do` that follows
/// the key).
pub fn hash_value(idx: usize, crc: u64, range_begin: i64, range_end: i64) -> (r: i64)
    requires
        idx < 64,
        range_begin <= range_end,
        range_end - range_begin < u64::MAX,
    ensures
        r == hash_pick(idx as int, crc as int, range_begin as int, range_end as int),
        range_begin <= r <= range_end,
{
    let width: u64 = (range_end as i128 - range_begin as i128 + 1) as u64;
    let off: u64 = (crc >> idx as u64) % width;
    (range_begin as i128 + off as i128) as i64
}

/// The value a hash expression stands for in field
/// `idx`, within `[range_begin, range_end]` (the field's range by default).
/// For `h` it is keyed on the CRC-32 of `hash_id`; for `r` it is arbitrary.
pub fn hash_do(idx: usize, hash_type: &str, hash_id: Option<&[u8]>, range_begin: Option<i64>, range_end: Option<i64>) -> (r: i64)
    requires
        idx < 7,
        hash_begin(idx as int, range_begin) <= hash_end(idx as int, range_end),
        hash_end(idx as int, range_end) - hash_begin(idx as int, range_begin) < u64::MAX,
    ensures
        hash_begin(idx as int, range_begin) <= r <= hash_end(idx as int, range_end),
        hash_type@ != seq!['r'] ==> r == hash_pick(idx as int, spec_crc32(key_of(id_view(hash_id))) as int,
            hash_begin(idx as int, range_begin), hash_end(idx as int, range_end)),
        hash_type@ == seq!['r'] ==> exists|x: int| 0 <= x < 0x1_0000_0000
            && #[trigger] hash_pick(idx as int, x, hash_begin(idx as int, range_begin), hash_end(idx as int, range_end)) == r,
{
    let (lo, hi) = field_range(idx);
    let end = match range_end { Some(e) => e, None => hi };
    let begin = match range_begin { Some(b) => b, None => lo };
    let random = is_random_form(hash_type);
    let crc: u64 = if random {
        random_u32() as u64
    } else {
        match hash_id {
            Some(id) => crc32(id) as u64,
            None => {
                let empty: Vec<u8> = Vec::new();
                assert(empty@ =~= Seq::<u8>::empty());
                crc32(empty.as_slice()) as u64
            },
        }
    };
    let r = hash_value(idx, crc, begin, end);
    proof {
        if random {
            assert(0 <= crc < 0x1_0000_0000);
            assert(hash_pick(idx as int, crc as int, hash_begin(idx as int, range_begin), hash_end(idx as int, range_end)) == r);
        }
    }
    r
}

/// The low end of a hash range: as given, or the field's.
pub open spec fn hash_begin(idx: int, range_begin: Option<i64>) -> int {
    match range_begin { Some(b) => b as int, None => range_low(idx) }
}

/// The high end of a hash range: as given, or the field's.
pub open spec fn hash_end(idx: int, range_end: Option<i64>) -> int {
    match range_end { Some(e) => e as int, None => range_high(idx) }
}

/// The hash id's bytes, or none.
pub open spec fn key_of(key: Option<Seq<u8>>) -> Seq<u8> {
    match key {
        Some(id) => id,
        None => Seq::empty(),
    }
}

/// The bytes of a hash id, if one is given.
pub open spec fn id_view(hash_id: Option<&[u8]>) -> Option<Seq<u8>> {
    match hash_id {
        Some(id) => Some(id@),
        None => None,
    }
}

pub open spec fn is_bad_cron(r: Result<String, CroniterError>, msg: Seq<char>) -> bool {
    r matches Err(CroniterError::BadCron(m)) && m@ == msg
}

/// `r` is the decimal text of the value a hash expression picks in
/// `[b, e]`: keyed on the CRC-32 of `key` for `h`, any value for `r`.
pub open spec fn picks_value(r: Result<String, CroniterError>, idx: int, random: bool, key: Seq<u8>, b: int, e: int) -> bool {
    r matches Ok(s) && if random {
        exists|x: int| b <= x <= e && s@ == #[trigger] decimal(x)
    } else {
        s@ == decimal(hash_pick(idx, spec_crc32(key) as int, b, e))
    }
}

/// `r` is the step range `{x}-{end}/{step}` whose start `x` a hash
/// expression picks in `[b, e]`: keyed on the CRC-32 of `key` for `h`, any
/// value for `r`.
pub open spec fn picks_start(r: Result<String, CroniterError>, idx: int, random: bool, key: Seq<u8>, b: int, e: int, end: int, step: int) -> bool {
    r matches Ok(s) && if random {
        exists|x: int| b <= x <= e && s@ == #[trigger] stepped_text(x, end, step)
    } else {
        s@ == stepped_text(hash_pick(idx, spec_crc32(key) as int, b, e), end, step)
    }
}

/// The text `{x}-{end}/{step}`.
pub open spec fn stepped_text(x: int, end: int, step: int) -> Seq<char> {
    decimal(x) + seq!['-'] + decimal(end) + seq!['/'] + decimal(step)
}

/// What `expand_field` makes of the hash expression `f` (whose text is
/// `expr`) in field `idx`:
/// - `h` without a hash id is refused;
/// - `h(b-e)` / `r(b-e)` pick a value in `[b, e]`, and `e` must exceed `b`;
/// - with `/d` the pick is the start in `[b, b + d - 1]` of a step range
///   `{x}-{end}/{d}` up to `e` (or the field's maximum without a range);
/// - bare `h` / `r` pick in the field's whole range;
/// - a number that does not fit in an `i64`, a zero divisor, or a start
///   window past `i64::MAX` is a bad expression.
pub open spec fn hash_outcome(idx: int, expr: Seq<char>, f: HashForm, hash_id: Option<Seq<u8>>, r: Result<String, CroniterError>) -> bool {
    let bad = is_bad_cron(r, "Bad expression: "@ + expr);
    let key = key_of(hash_id);
    let lo = range_low(idx);
    let hi = range_high(idx);
    if !f.random && hash_id is None {
        is_bad_cron(r, "Hashed definitions must include hash_id"@)
    } else {
        match f.range {
            Some((a, b)) => {
                let rb = digits_value(a);
                let re = digits_value(b);
                if rb > i64::MAX || re > i64::MAX {
                    bad
                } else if rb >= re {
                    is_bad_cron(r, "Range end must be greater than range begin"@)
                } else {
                    match f.divisor {
                        Some(d) => {
                            let div = digits_value(d);
                            if div > i64::MAX || div == 0 || div - 1 + rb > i64::MAX {
                                bad
                            } else {
                                picks_start(r, idx, f.random, key, rb, div - 1 + rb, re, div)
                            }
                        },
                        None => picks_value(r, idx, f.random, key, rb, re),
                    }
                }
            },
            None => match f.divisor {
                Some(d) => {
                    let div = digits_value(d);
                    if div > i64::MAX || div == 0 || div - 1 + lo > i64::MAX {
                        bad
                    } else {
                        picks_start(r, idx, f.random, key, lo, div - 1 + lo, hi, div)
                    }
                },
                None => picks_value(r, idx, f.random, key, lo, hi),
            },
        }
    }
}

fn bad_expression(v: &Vec<char>) -> (e: CroniterError)
    ensures
        e matches CroniterError::BadCron(m) && m@ == "Bad expression: "@ + v@,
{
    let mut m = String::from_str("Bad expression: ");
    append_chars(&mut m, v);
    CroniterError::BadCron(m)
}

/// The text `{x}-{end}/{step}`.
fn render_stepped(x: i64, end: i64, step: i64) -> (s: String)
    ensures
        s@ == stepped_text(x as int, end as int, step as int),
{
    let mut s = String::new();
    append_int(&mut s, x);
    push_char(&mut s, '-');
    append_int(&mut s, end);
    push_char(&mut s, '/');
    append_int(&mut s, step);
    assert(s@ =~= stepped_text(x as int, end as int, step as int));
    s
}

fn render_value(x: i64) -> (s: String)
    ensures
        s@ == decimal(x as int),
{
    let mut s = String::new();
    append_int(&mut s, x);
    assert(s@ =~= decimal(x as int));
    s
}

/// Rewrites a hash expression in field `idx` into
/// ordinary cron syntax; any other text comes back unchanged.
pub fn expand_field(idx: usize, expr: &str, hash_id: Option<&[u8]>) -> (r: Result<String, CroniterError>)
    requires
        idx < 7,
    ensures
        (forall|f: HashForm| !is_hash_expr(expr@, f)) ==> (r matches Ok(s) && s@ == expr@),
        forall|f: HashForm| is_hash_expr(expr@, f) ==> hash_outcome(idx as int, expr@, f, id_view(hash_id), r),
{
    let v = chars_of(expr);
    let parts = match parse_hash_form(&v) {
        None => {
            return Ok(string_of(&v));
        },
        Some(p) => p,
    };
    let ghost f = parts.form();
    proof {
        assert forall|g: HashForm| is_hash_expr(expr@, g) implies g == f by {
            lemma_hash_unique(expr@, g, f);
        }
    }
    let hash_type: &str = if parts.random { "r" } else { "h" };
    proof {
        reveal_strlit("r");
        reveal_strlit("h");
        if parts.random {
            assert(hash_type@ =~= seq!['r']);
        } else {
            assert(hash_type@[0] == 'h');
        }
    }
    if !parts.random && hash_id.is_none() {
        return Err(CroniterError::BadCron(String::from_str("Hashed definitions must include hash_id")));
    }
    let (lo, hi) = field_range(idx);
    match &parts.range {
        Some((a, b)) => {
            let rb = match parse_digits(a) {
                Some(x) => x,
                None => { return Err(bad_expression(&v)); },
            };
            let re = match parse_digits(b) {
                Some(x) => x,
                None => { return Err(bad_expression(&v)); },
            };
            if rb >= re {
                return Err(CroniterError::BadCron(String::from_str("Range end must be greater than range begin")));
            }
            match &parts.divisor {
                Some(d) => {
                    let div = match parse_digits(d) {
                        Some(x) => x,
                        None => { return Err(bad_expression(&v)); },
                    };
                    if div == 0 || div - 1 > i64::MAX - rb {
                        return Err(bad_expression(&v));
                    }
                    let x = hash_do(idx, hash_type, hash_id, Some(rb), Some(div - 1 + rb));
                    let s = render_stepped(x, re, div);
                    assert(stepped_text(x as int, re as int, div as int) == s@);
                    Ok(s)
                },
                None => {
                    let x = hash_do(idx, hash_type, hash_id, Some(rb), Some(re));
                    let s = render_value(x);
                    assert(decimal(x as int) == s@);
                    Ok(s)
                },
            }
        },
        None => {
            match &parts.divisor {
                Some(d) => {
                    let div = match parse_digits(d) {
                        Some(x) => x,
                        None => { return Err(bad_expression(&v)); },
                    };
                    if div == 0 || div - 1 > i64::MAX - lo {
                        return Err(bad_expression(&v));
                    }
                    let x = hash_do(idx, hash_type, hash_id, Some(lo), Some(div - 1 + lo));
                    let s = render_stepped(x, hi, div);
                    assert(stepped_text(x as int, hi as int, div as int) == s@);
                    Ok(s)
                },
                None => {
                    let x = hash_do(idx, hash_type, hash_id, None, None);
                    let s = render_value(x);
                    assert(decimal(x as int) == s@);
                    Ok(s)
                },
            }
        },
    }
}

} // verus!
