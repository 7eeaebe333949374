use vstd::prelude::*;

verus! {

/// The six-bit value of a character of the URL-safe base64 alphabet
/// (`A`-`Z`, `a`-`z`, `0`-`9`, `-`, `_`).
pub open spec fn sextet(c: u8) -> Option<nat> {
    if 65 <= c <= 90 {
        Some((c - 65) as nat)
    } else if 97 <= c <= 122 {
        Some((c - 71) as nat)
    } else if 48 <= c <= 57 {
        Some((c + 4) as nat)
    } else if c == 45 {
        Some(62)
    } else if c == 95 {
        Some(63)
    } else {
        None
    }
}

pub open spec fn sx(s: Seq<u8>, i: int) -> nat {
    sextet(s[i]).unwrap()
}

/// Whether `s` is unpadded URL-safe base64: every character is of the
/// alphabet, no group has a single character, and the bits past the last
/// whole byte are zero.
pub open spec fn valid_base64url(s: Seq<u8>) -> bool {
    let p = s.len() - s.len() % 4;
    &&& s.len() % 4 != 1
    &&& forall|i: int| 0 <= i < s.len() ==> (#[trigger] sextet(s[i])) is Some
    &&& s.len() % 4 == 2 ==> sx(s, p + 1) % 16 == 0
    &&& s.len() % 4 == 3 ==> sx(s, p + 2) % 4 == 0
}

/// The three bytes of the group of four characters at `p`.
pub open spec fn group_bytes(s: Seq<u8>, p: int) -> Seq<u8> {
    seq![
        (sx(s, p) * 4 + sx(s, p + 1) / 16) as u8,
        ((sx(s, p + 1) % 16) * 16 + sx(s, p + 2) / 4) as u8,
        ((sx(s, p + 2) % 4) * 64 + sx(s, p + 3)) as u8,
    ]
}

/// The bytes of the first `n` groups.
pub open spec fn groups(s: Seq<u8>, n: nat) -> Seq<u8>
    decreases n,
{
    if n == 0 {
        seq![]
    } else {
        groups(s, (n - 1) as nat) + group_bytes(s, 4 * (n - 1))
    }
}

/// The bytes of the two or three characters after the last whole group.
pub open spec fn tail_bytes(s: Seq<u8>) -> Seq<u8> {
    let p = s.len() - s.len() % 4;
    if s.len() % 4 == 2 {
        seq![(sx(s, p) * 4 + sx(s, p + 1) / 16) as u8]
    } else if s.len() % 4 == 3 {
        seq![
            (sx(s, p) * 4 + sx(s, p + 1) / 16) as u8,
            ((sx(s, p + 1) % 16) * 16 + sx(s, p + 2) / 4) as u8,
        ]
    } else {
        seq![]
    }
}

/// The bytes that valid unpadded URL-safe base64 stands for.
pub open spec fn decoded(s: Seq<u8>) -> Seq<u8> {
    groups(s, (s.len() / 4) as nat) + tail_bytes(s)
}

/// The six-bit value of `c`, if it is of the alphabet.
pub fn sextet_of(c: u8) -> (r: Option<u8>)
    ensures
        match r {
            Some(x) => sextet(c) == Some(x as nat) && x < 64,
            None => sextet(c) is None,
        },
{
    if 65 <= c && c <= 90 {
        Some(c - 65)
    } else if 97 <= c && c <= 122 {
        Some(c - 71)
    } else if 48 <= c && c <= 57 {
        Some(c + 4)
    } else if c == 45 {
        Some(62)
    } else if c == 95 {
        Some(63)
    } else {
        None
    }
}

/// Decodes a value sent as unpadded URL-safe base64; `None` where the text
/// is not such an encoding.
pub fn decode_value(s: &[u8]) -> (r: Option<Vec<u8>>)
    ensures
        r is Some <==> valid_base64url(s@),
        r matches Some(out) ==> out@ == decoded(s@),
{
    let n = s.len();
    let mut sx_vals: Vec<u8> = Vec::new();
    let mut i: usize = 0;
    while i < n
        invariant
            n == s@.len(),
            0 <= i <= n,
            sx_vals@.len() == i,
            forall|k: int| 0 <= k < i ==> sextet(#[trigger] s@[k]) == Some(sx_vals@[k] as nat),
            forall|k: int| 0 <= k < i ==> #[trigger] sx_vals@[k] < 64,
        decreases n - i,
    {
        match sextet_of(s[i]) {
            Some(x) => sx_vals.push(x),
            None => {
                assert(!valid_base64url(s@)) by {
                    assert(sextet(s@[i as int]) is None);
                }
                return None;
            },
        }
        i = i + 1;
    }
    let rem = n % 4;
    let whole = n - rem;
    if rem == 1 {
        return None;
    }
    if rem == 2 && sx_vals[whole + 1] % 16 != 0 {
        return None;
    }
    if rem == 3 && sx_vals[whole + 2] % 4 != 0 {
        return None;
    }
    assert(valid_base64url(s@));
    let mut out: Vec<u8> = Vec::new();
    let mut g: usize = 0;
    while g < whole
        invariant
            n == s@.len(),
            whole == n - n % 4,
            whole % 4 == 0,
            g % 4 == 0,
            0 <= g <= whole,
            sx_vals@.len() == n,
            forall|k: int| 0 <= k < n ==> sextet(#[trigger] s@[k]) == Some(sx_vals@[k] as nat),
            forall|k: int| 0 <= k < n ==> #[trigger] sx_vals@[k] < 64,
            out@ == groups(s@, (g / 4) as nat),
        decreases whole - g,
    {
        let a = sx_vals[g];
        let b = sx_vals[g + 1];
        let c = sx_vals[g + 2];
        let d = sx_vals[g + 3];
        let ghost before = out@;
        out.push(a * 4 + b / 16);
        out.push((b % 16) * 16 + c / 4);
        out.push((c % 4) * 64 + d);
        assert(sx(s@, g as int) == a && sx(s@, g + 1) == b && sx(s@, g + 2) == c && sx(s@, g + 3)
            == d);
        assert((g + 4) / 4 - 1 == g / 4);
        assert(out@ =~= before + group_bytes(s@, g as int));
        g = g + 4;
    }
    if rem >= 2 {
        let a = sx_vals[whole];
        let b = sx_vals[whole + 1];
        assert(sx(s@, whole as int) == a && sx(s@, whole + 1) == b);
        out.push(a * 4 + b / 16);
        if rem == 3 {
            let c = sx_vals[whole + 2];
            assert(sx(s@, whole + 2) == c);
            out.push((b % 16) * 16 + c / 4);
        }
    }
    assert(whole / 4 == n / 4);
    assert(out@ =~= decoded(s@));
    Some(out)
}

/// The character of the URL-safe base64 alphabet for a six-bit value.
pub open spec fn alphabet(x: nat) -> u8 {
    if x < 26 {
        (x + 65) as u8
    } else if x < 52 {
        (x + 71) as u8
    } else if x < 62 {
        (x - 4) as u8
    } else if x == 62 {
        45
    } else {
        95
    }
}

/// The four characters for the three bytes at `p`.
pub open spec fn enc_group(b: Seq<u8>, p: int) -> Seq<u8> {
    seq![
        alphabet(b[p] as nat / 4),
        alphabet((b[p] as nat % 4) * 16 + b[p + 1] as nat / 16),
        alphabet((b[p + 1] as nat % 16) * 4 + b[p + 2] as nat / 64),
        alphabet(b[p + 2] as nat % 64),
    ]
}

/// The characters of the first `n` groups of three bytes.
pub open spec fn enc_groups(b: Seq<u8>, n: nat) -> Seq<u8>
    decreases n,
{
    if n == 0 {
        seq![]
    } else {
        enc_groups(b, (n - 1) as nat) + enc_group(b, 3 * (n - 1))
    }
}

/// The characters for the one or two bytes after the last whole group.
pub open spec fn enc_tail(b: Seq<u8>) -> Seq<u8> {
    let p = b.len() - b.len() % 3;
    if b.len() % 3 == 1 {
        seq![alphabet(b[p] as nat / 4), alphabet((b[p] as nat % 4) * 16)]
    } else if b.len() % 3 == 2 {
        seq![
            alphabet(b[p] as nat / 4),
            alphabet((b[p] as nat % 4) * 16 + b[p + 1] as nat / 16),
            alphabet((b[p + 1] as nat % 16) * 4),
        ]
    } else {
        seq![]
    }
}

/// Unpadded URL-safe base64 for `b`.
pub open spec fn encoded(b: Seq<u8>) -> Seq<u8> {
    enc_groups(b, (b.len() / 3) as nat) + enc_tail(b)
}

pub fn alphabet_of(x: u8) -> (r: u8)
    requires
        x < 64,
    ensures
        r == alphabet(x as nat),
{
    if x < 26 {
        x + 65
    } else if x < 52 {
        x + 71
    } else if x < 62 {
        x - 4
    } else if x == 62 {
        45
    } else {
        95
    }
}

/// Encodes a value as unpadded URL-safe base64, as clients send it.
pub fn encode_value(b: &[u8]) -> (r: Vec<u8>)
    ensures
        r@ == encoded(b@),
{
    let n = b.len();
    let rem = n % 3;
    let whole = n - rem;
    let mut out: Vec<u8> = Vec::new();
    let mut g: usize = 0;
    while g < whole
        invariant
            n == b@.len(),
            whole == n - n % 3,
            g % 3 == 0,
            0 <= g <= whole,
            out@ == enc_groups(b@, (g / 3) as nat),
        decreases whole - g,
    {
        let x = b[g];
        let y = b[g + 1];
        let z = b[g + 2];
        let ghost before = out@;
        out.push(alphabet_of(x / 4));
        out.push(alphabet_of((x % 4) * 16 + y / 16));
        out.push(alphabet_of((y % 16) * 4 + z / 64));
        out.push(alphabet_of(z % 64));
        assert((g + 3) / 3 - 1 == g / 3);
        assert(out@ =~= before + enc_group(b@, g as int));
        g = g + 3;
    }
    if rem == 1 {
        let x = b[whole];
        out.push(alphabet_of(x / 4));
        out.push(alphabet_of((x % 4) * 16));
    } else if rem == 2 {
        let x = b[whole];
        let y = b[whole + 1];
        out.push(alphabet_of(x / 4));
        out.push(alphabet_of((x % 4) * 16 + y / 16));
        out.push(alphabet_of((y % 16) * 4));
    }
    assert(whole / 3 == n / 3);
    assert(out@ =~= encoded(b@));
    out
}

pub proof fn lemma_alphabet(x: nat)
    requires
        x < 64,
    ensures
        sextet(alphabet(x)) == Some(x),
{
}

pub proof fn lemma_group_arith(x: nat, y: nat, z: nat)
    requires
        x < 256,
        y < 256,
        z < 256,
    ensures
        x / 4 < 64,
        (x % 4) * 16 + y / 16 < 64,
        (y % 16) * 4 + z / 64 < 64,
        z % 64 < 64,
        (x / 4) * 4 + ((x % 4) * 16 + y / 16) / 16 == x,
        (((x % 4) * 16 + y / 16) % 16) * 16 + ((y % 16) * 4 + z / 64) / 4 == y,
        (((y % 16) * 4 + z / 64) % 4) * 64 + z % 64 == z,
        ((x % 4) * 16) % 16 == 0,
        ((y % 16) * 4) % 4 == 0,
        (x / 4) * 4 + ((x % 4) * 16) / 16 == x,
        (((x % 4) * 16 + y / 16) % 16) * 16 + ((y % 16) * 4) / 4 == y,
{
}

pub proof fn lemma_enc_groups(b: Seq<u8>, n: nat)
    requires
        3 * n <= b.len(),
    ensures
        enc_groups(b, n).len() == 4 * n,
        forall|k: int, j: int|
            0 <= k < n && 0 <= j < 4 ==> #[trigger] enc_groups(b, n)[4 * k + j] == enc_group(
                b,
                3 * k,
            )[j],
    decreases n,
{
    if n > 0 {
        lemma_enc_groups(b, (n - 1) as nat);
        let prev = enc_groups(b, (n - 1) as nat);
        assert forall|k: int, j: int| 0 <= k < n && 0 <= j < 4 implies #[trigger] enc_groups(
            b,
            n,
        )[4 * k + j] == enc_group(b, 3 * k)[j] by {
            if k < n - 1 {
                assert(enc_groups(b, n)[4 * k + j] == prev[4 * k + j]);
            }
        }
    }
}

/// Decoding the first `m` groups of an encoding gives back the first `3 * m` bytes.
pub proof fn lemma_groups_decode(b: Seq<u8>, m: nat)
    requires
        3 * m <= b.len(),
        4 * m <= encoded(b).len(),
        forall|k: int, j: int|
            0 <= k < m && 0 <= j < 4 ==> #[trigger] encoded(b)[4 * k + j] == enc_group(b, 3 * k)[j],
    ensures
        groups(encoded(b), m) == b.subrange(0, 3 * m as int),
    decreases m,
{
    let e = encoded(b);
    if m == 0 {
        assert(b.subrange(0, 0) =~= Seq::<u8>::empty());
    } else {
        lemma_groups_decode(b, (m - 1) as nat);
        let p: int = 3 * (m - 1);
        let q: int = 4 * (m - 1);
        let x = b[p] as nat;
        let y = b[p + 1] as nat;
        let z = b[p + 2] as nat;
        lemma_group_arith(x, y, z);
        let k: int = m - 1;
        let j0: int = 0;
        assert(e[4 * k + j0] == enc_group(b, 3 * k)[j0]);
        assert(e[q + 1] == enc_group(b, p)[1]);
        assert(e[q + 2] == enc_group(b, p)[2]);
        assert(e[q + 3] == enc_group(b, p)[3]);
        lemma_alphabet(x / 4);
        lemma_alphabet((x % 4) * 16 + y / 16);
        lemma_alphabet((y % 16) * 4 + z / 64);
        lemma_alphabet(z % 64);
        assert(group_bytes(e, q) =~= b.subrange(p, p + 3));
        assert(b.subrange(0, 3 * m as int) =~= b.subrange(0, p) + b.subrange(p, p + 3));
    }
}

/// Every byte string encodes to valid unpadded URL-safe base64, which
/// decodes back to the same bytes.
pub proof fn lemma_encode_decode(b: Seq<u8>)
    ensures
        valid_base64url(encoded(b)),
        decoded(encoded(b)) == b,
{
    let n: int = b.len() as int;
    let q: int = n / 3;
    let e = encoded(b);
    lemma_enc_groups(b, q as nat);
    let t = enc_tail(b);
    assert(e.len() == 4 * q + t.len());
    assert(e.len() / 4 == q && e.len() % 4 == t.len());
    assert forall|k: int, j: int| 0 <= k < q && 0 <= j < 4 implies #[trigger] e[4 * k + j]
        == enc_group(b, 3 * k)[j] by {
        assert(e[4 * k + j] == enc_groups(b, q as nat)[4 * k + j]);
    }
    let p: int = 3 * q;
    let w: int = 4 * q;
    assert(forall|j: int| 0 <= j < t.len() ==> e[w + j] == t[j]);
    assert forall|i: int| 0 <= i < e.len() implies (#[trigger] sextet(e[i])) is Some by {
        if i < w {
            let k = i / 4;
            let j = i % 4;
            assert(i == 4 * k + j);
            let x = b[3 * k] as nat;
            let y = b[3 * k + 1] as nat;
            let z = b[3 * k + 2] as nat;
            lemma_group_arith(x, y, z);
            assert(e[4 * k + j] == enc_group(b, 3 * k)[j]);
            lemma_alphabet(x / 4);
            lemma_alphabet((x % 4) * 16 + y / 16);
            lemma_alphabet((y % 16) * 4 + z / 64);
            lemma_alphabet(z % 64);
        } else {
            let x = b[p] as nat;
            let y = if n % 3 == 2 {
                b[p + 1] as nat
            } else {
                0
            };
            lemma_group_arith(x, y, 0);
            assert(e[w + (i - w)] == t[i - w]);
            lemma_alphabet(x / 4);
            lemma_alphabet((x % 4) * 16);
            lemma_alphabet((x % 4) * 16 + y / 16);
            lemma_alphabet((y % 16) * 4);
        }
    }
    lemma_groups_decode(b, q as nat);
    if n % 3 == 1 {
        let x = b[p] as nat;
        lemma_group_arith(x, 0, 0);
        lemma_alphabet(x / 4);
        lemma_alphabet((x % 4) * 16);
        assert(e[w] == t[0] && e[w + 1] == t[1]);
        assert(tail_bytes(e) =~= b.subrange(p, n));
    } else if n % 3 == 2 {
        let x = b[p] as nat;
        let y = b[p + 1] as nat;
        lemma_group_arith(x, y, 0);
        lemma_alphabet(x / 4);
        lemma_alphabet((x % 4) * 16 + y / 16);
        lemma_alphabet((y % 16) * 4);
        assert(e[w] == t[0] && e[w + 1] == t[1] && e[w + 2] == t[2]);
        assert(tail_bytes(e) =~= b.subrange(p, n));
    } else {
        assert(tail_bytes(e) =~= b.subrange(p, n));
    }
    assert(b =~= b.subrange(0, p) + b.subrange(p, n));
}

} // verus!
