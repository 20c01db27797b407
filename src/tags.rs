use vstd::prelude::*;
use vstd::string::StringSliceAdditionalSpecFns;

verus! {

/// Key/value attributes of a map element; a later entry for a key shadows an earlier one.
pub struct Tags {
    pub entries: Vec<(String, String)>,
}

/// The value bound to `k` in `s`: the last entry with that key.
pub open spec fn lookup(s: Seq<(String, String)>, k: Seq<char>) -> Option<Seq<char>>
    decreases s.len(),
{
    if s.len() == 0 {
        None
    } else if s.last().0@ == k {
        Some(s.last().1@)
    } else {
        lookup(s.drop_last(), k)
    }
}

pub open spec fn opt_view(o: Option<&String>) -> Option<Seq<char>> {
    match o {
        Some(v) => Some(v@),
        None => None,
    }
}

impl Tags {
    pub open spec fn get_spec(&self, k: Seq<char>) -> Option<Seq<char>> {
        lookup(self.entries@, k)
    }

    pub open spec fn has(&self, k: Seq<char>, v: Seq<char>) -> bool {
        self.get_spec(k) == Some(v)
    }

    /// The value bound to `key`, if any.
    pub fn get(&self, key: &str) -> (r: Option<&String>)
        ensures
            opt_view(r) == self.get_spec(key@),
    {
        let k: String = key.to_owned();
        let mut r: Option<&String> = None;
        let mut i: usize = 0;
        while i < self.entries.len()
            invariant
                i <= self.entries@.len(),
                k@ == key@,
                opt_view(r) == lookup(self.entries@.subrange(0, i as int), key@),
            decreases self.entries@.len() - i,
        {
            assert(self.entries@.subrange(0, i + 1).drop_last() =~= self.entries@.subrange(0, i as int));
            if self.entries[i].0 == k {
                r = Some(&self.entries[i].1);
            }
            i = i + 1;
        }
        assert(self.entries@.subrange(0, i as int) =~= self.entries@);
        r
    }

    /// Whether `key` is bound to exactly `value`.
    pub fn is(&self, key: &str, value: &str) -> (r: bool)
        ensures
            r == self.has(key@, value@),
    {
        let v: String = value.to_owned();
        match self.get(key) {
            Some(x) => *x == v,
            None => false,
        }
    }
}

pub open spec fn is_digit(b: u8) -> bool {
    48 <= b <= 57
}

pub open spec fn all_digits(s: Seq<u8>) -> bool {
    s.len() > 0 && forall|i: int| 0 <= i < s.len() ==> is_digit(#[trigger] s[i])
}

/// The decimal value of a digit string.
pub open spec fn digits_value(s: Seq<u8>) -> int
    decreases s.len(),
{
    if s.len() == 0 {
        0
    } else {
        digits_value(s.drop_last()) * 10 + (s.last() - 48)
    }
}

/// A signed decimal integer (optional `+` or `-`, then digits) that fits in 32 bits.
pub open spec fn parse_int(s: Seq<u8>) -> Option<int> {
    let neg = s.len() > 0 && s[0] == 45u8;
    let signed = s.len() > 0 && (s[0] == 45u8 || s[0] == 43u8);
    let body = if signed { s.drop_first() } else { s };
    let v = if neg { -digits_value(body) } else { digits_value(body) };
    if all_digits(body) && i32::MIN <= v <= i32::MAX {
        Some(v)
    } else {
        None
    }
}

pub proof fn lemma_digits_grow(s: Seq<u8>, i: int)
    requires
        0 <= i <= s.len(),
        forall|j: int| 0 <= j < s.len() ==> is_digit(#[trigger] s[j]),
    ensures
        digits_value(s.subrange(0, i)) <= digits_value(s),
        0 <= digits_value(s.subrange(0, i)),
    decreases s.len() - i,
{
    if i < s.len() {
        lemma_digits_grow(s, i + 1);
        assert(s.subrange(0, i + 1).drop_last() =~= s.subrange(0, i));
        lemma_digits_nonneg(s.subrange(0, i));
    } else {
        assert(s.subrange(0, i) =~= s);
        lemma_digits_nonneg(s);
    }
}

proof fn lemma_digits_nonneg(s: Seq<u8>)
    requires
        forall|j: int| 0 <= j < s.len() ==> is_digit(#[trigger] s[j]),
    ensures
        0 <= digits_value(s),
    decreases s.len(),
{
    if s.len() > 0 {
        lemma_digits_nonneg(s.drop_last());
    }
}

/// Reads a signed 32-bit decimal integer; anything else gives `None`.
pub fn parse_i32(text: &str) -> (r: Option<i32>)
    ensures
        opt_int(r) == parse_int(text.spec_bytes()),
{
    let b: &[u8] = text.as_bytes();
    proof {
        assert(b@.subrange(0, b@.len() as int) =~= b@);
    }
    parse_i32_range(b, 0, b.len())
}

pub open spec fn opt_int(r: Option<i32>) -> Option<int> {
    match r {
        Some(v) => Some(v as int),
        None => None,
    }
}

/// Reads a signed 32-bit decimal integer from `b[lo..hi]`.
pub fn parse_i32_range(b: &[u8], lo: usize, hi: usize) -> (r: Option<i32>)
    requires
        lo <= hi <= b@.len(),
    ensures
        opt_int(r) == parse_int(b@.subrange(lo as int, hi as int)),
{
    let ghost s = b@.subrange(lo as int, hi as int);
    let neg: bool = hi > lo && b[lo] == 45u8;
    let signed: bool = hi > lo && (b[lo] == 45u8 || b[lo] == 43u8);
    let start: usize = if signed { lo + 1 } else { lo };
    let ghost body = if signed { s.drop_first() } else { s };
    if start >= hi {
        return None;
    }
    let mut acc: i64 = 0;
    let mut i: usize = start;
    while i < hi
        invariant
            start <= i <= hi <= b@.len(),
            lo <= start,
            s == b@.subrange(lo as int, hi as int),
            start - lo == s.len() - body.len(),
            signed == (s.len() > 0 && (s[0] == 45u8 || s[0] == 43u8)),
            neg == (s.len() > 0 && s[0] == 45u8),
            body == (if signed { s.drop_first() } else { s }),
            body =~= b@.subrange(start as int, hi as int),
            forall|j: int| 0 <= j < i - start ==> is_digit(#[trigger] body[j]),
            acc == digits_value(body.subrange(0, i - start)),
            0 <= acc <= 2147483648,
        decreases hi - i,
    {
        let c: u8 = b[i];
        if c < 48u8 || c > 57u8 {
            assert(!is_digit(body[i - start]));
            assert(!all_digits(body));
            return None;
        }
        proof {
            assert(body.subrange(0, i + 1 - start).drop_last() =~= body.subrange(0, i - start));
        }
        acc = acc * 10 + (c - 48u8) as i64;
        i = i + 1;
        if acc > 2147483648 {
            proof {
                lemma_over(body, i - start);
                if all_digits(body) {
                    lemma_digits_nonneg(body);
                }
            }
            return None;
        }
    }
    assert(body.subrange(0, body.len() as int) =~= body);
    if neg {
        Some((0 - acc) as i32)
    } else if acc > 2147483647 {
        None
    } else {
        Some(acc as i32)
    }
}

proof fn lemma_over(body: Seq<u8>, k: int)
    requires
        0 < k <= body.len(),
        forall|j: int| 0 <= j < k ==> is_digit(#[trigger] body[j]),
        digits_value(body.subrange(0, k)) > 2147483648,
    ensures
        !all_digits(body) || digits_value(body) > 2147483648,
{
    if all_digits(body) {
        lemma_digits_grow(body, k);
    }
}

} // verus!
