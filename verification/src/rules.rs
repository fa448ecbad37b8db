use vstd::string::StringSliceAdditionalSpecFns;
use vstd::prelude::*;

verus! {

/// Why a rule string was rejected: it has no `=`, or a channel field is
/// not a number up to 255.
#[derive(Clone, Copy, Debug, PartialEq, Eq, Structural)]
pub enum RuleError {
    MissingEq,
    BadNumber,
}

/// Source channels to be collapsed onto one destination channel.
#[derive(Clone, Debug, PartialEq, Eq)]
pub struct Rule {
    /// The source channels, in the order the rule names them.
    pub chs: Vec<u8>,
    /// The destination channel.
    pub as_ch: u8,
}

impl Rule {
    pub fn new(chs: Vec<u8>, as_ch: u8) -> (r: Rule)
        ensures
            r.chs@ == chs@,
            r.as_ch == as_ch,
    {
        Rule { chs, as_ch }
    }
}

/// The first position of byte `b`, or the whole length if it is absent.
pub open spec fn find_byte(s: Seq<u8>, b: u8) -> int
    decreases s.len(),
{
    if s.len() == 0 {
        0
    } else if s[0] == b {
        0
    } else {
        1 + find_byte(s.drop_first(), b)
    }
}

pub open spec fn is_digit(b: u8) -> bool {
    48 <= b <= 57
}

/// A decimal digit string read as a number.
pub open spec fn digits_val(s: Seq<u8>) -> int
    decreases s.len(),
{
    if s.len() == 0 {
        0
    } else {
        digits_val(s.drop_last()) * 10 + (s.last() - 48)
    }
}

/// A channel field: one or more decimal digits naming a channel up to 255.
pub open spec fn valid_num(s: Seq<u8>) -> bool {
    &&& s.len() > 0
    &&& forall|i: int| 0 <= i < s.len() ==> is_digit(#[trigger] s[i])
    &&& digits_val(s) <= 255
}

/// The comma-separated channel fields after the `=`, each a valid number,
/// or nothing if any is malformed.
pub open spec fn parse_list(s: Seq<u8>) -> Option<Seq<u8>>
    decreases s.len(),
{
    let c = find_byte(s, 44);
    if 0 <= c < s.len() {
        if valid_num(s.take(c)) {
            match parse_list(s.skip(c + 1)) {
                Some(t) => Some(seq![digits_val(s.take(c)) as u8] + t),
                None => None,
            }
        } else {
            None
        }
    } else {
        if valid_num(s) {
            Some(seq![digits_val(s) as u8])
        } else {
            None
        }
    }
}

/// What a rule string means: `dest=src1,src2,...`, every field a decimal
/// channel number, or nothing if it is malformed.
pub open spec fn spec_rule(s: Seq<u8>) -> Option<(u8, Seq<u8>)> {
    let e = find_byte(s, 61);
    if e == s.len() {
        None
    } else if !valid_num(s.take(e)) {
        None
    } else {
        match parse_list(s.skip(e + 1)) {
            Some(t) => Some(((digits_val(s.take(e)) as u8), t)),
            None => None,
        }
    }
}

/// The byte scan for `b` stops exactly at `find_byte`.
proof fn lemma_find_byte(s: Seq<u8>, b: u8, f: int)
    requires
        0 <= f <= s.len(),
        forall|m: int| 0 <= m < f ==> s[m] != b,
        f < s.len() ==> s[f] == b,
    ensures
        find_byte(s, b) == f,
    decreases s.len(),
{
    if s.len() > 0 && s[0] != b {
        assert forall|m: int| 0 <= m < f - 1 implies s.drop_first()[m] != b by {
            assert(s.drop_first()[m] == s[m + 1]);
        }
        if f - 1 < s.drop_first().len() && f >= 1 {
            assert(s.drop_first()[f - 1] == s[f]);
        }
        lemma_find_byte(s.drop_first(), b, f - 1);
    }
}

/// Reading more digits never shrinks the value.
proof fn lemma_digits_grow(s: Seq<u8>, i: int)
    requires
        0 <= i <= s.len(),
        forall|m: int| 0 <= m < s.len() ==> is_digit(#[trigger] s[m]),
    ensures
        digits_val(s.take(i)) <= digits_val(s),
    decreases s.len() - i,
{
    if i < s.len() {
        assert(s.take(i + 1).drop_last() =~= s.take(i));
        assert(s.take(i + 1).last() == s[i]);
        assert(digits_val(s.take(i)) >= 0) by {
            lemma_digits_nonneg(s.take(i));
        }
        lemma_digits_grow(s, i + 1);
    } else {
        assert(s.take(i) =~= s);
    }
}

proof fn lemma_digits_nonneg(s: Seq<u8>)
    requires
        forall|m: int| 0 <= m < s.len() ==> is_digit(#[trigger] s[m]),
    ensures
        digits_val(s) >= 0,
    decreases s.len(),
{
    if s.len() > 0 {
        assert forall|m: int| 0 <= m < s.drop_last().len() implies is_digit(
            #[trigger] s.drop_last()[m],
        ) by {
            assert(s.drop_last()[m] == s[m]);
        }
        lemma_digits_nonneg(s.drop_last());
    }
}

/// Read one channel field: the bytes of `s` from `from` up to `to`.
fn parse_num(s: &[u8], from: usize, to: usize) -> (r: Option<u8>)
    requires
        from <= to <= s@.len(),
    ensures
        r == (if valid_num(s@.subrange(from as int, to as int)) {
            Some(digits_val(s@.subrange(from as int, to as int)) as u8)
        } else {
            None::<u8>
        }),
{
    let ghost sub = s@.subrange(from as int, to as int);
    if from == to {
        return None;
    }
    let mut v: u32 = 0;
    let mut i: usize = from;
    proof {
        assert(sub.take(0) =~= Seq::<u8>::empty());
    }
    while i < to
        invariant
            from <= i <= to <= s@.len(),
            sub == s@.subrange(from as int, to as int),
            v as int == digits_val(sub.take(i - from)),
            v <= 255,
            forall|m: int| 0 <= m < i - from ==> is_digit(#[trigger] sub[m]),
        decreases to - i,
    {
        let b = s[i];
        proof {
            assert(sub[i - from] == s@[i as int]);
            assert(sub.take(i - from + 1).drop_last() =~= sub.take(i - from));
            assert(sub.take(i - from + 1).last() == sub[i - from]);
        }
        if b < 48 || b > 57 {
            return None;
        }
        v = v * 10 + ((b - 48) as u32);
        if v > 255 {
            proof {
                if valid_num(sub) {
                    lemma_digits_grow(sub, i - from + 1);
                }
            }
            return None;
        }
        i += 1;
    }
    proof {
        assert(sub.take(to - from) =~= sub);
    }
    Some(v as u8)
}

/// Find `b` in `s` at or after `from`.
fn scan_byte(s: &[u8], from: usize, b: u8) -> (f: usize)
    requires
        from <= s@.len(),
    ensures
        from <= f <= s@.len(),
        f - from == find_byte(s@.subrange(from as int, s@.len() as int), b),
        f < s@.len() ==> s@[f as int] == b,
        forall|m: int| from <= m < f ==> s@[m] != b,
{
    let ghost sub = s@.subrange(from as int, s@.len() as int);
    let n = s.len();
    let mut i: usize = from;
    let mut found = false;
    while !found && i < n
        invariant
            from <= i <= n,
            n == s@.len(),
            forall|m: int| from <= m < i ==> s@[m] != b,
            found ==> i < n && s@[i as int] == b,
        decreases n - i, (if found { 0int } else { 1int }),
    {
        if s[i] == b {
            found = true;
        } else {
            i += 1;
        }
    }
    proof {
        assert forall|m: int| 0 <= m < i - from implies sub[m] != b by {
            assert(sub[m] == s@[m + from]);
        }
        if i < n {
            assert(sub[i - from] == s@[i as int]);
        }
        lemma_find_byte(sub, b, i - from);
    }
    i
}

impl Rule {
    /// Read a rule from its textual form `dest=src1,src2,...`: a string
    /// without `=`, or with a field that is not a decimal number up to
    /// 255, is rejected with the matching error.
    pub fn from_str(s: &str) -> (r: Result<Rule, RuleError>)
        ensures
            match r {
                Ok(rule) => spec_rule(s.spec_bytes()) == Some((rule.as_ch, rule.chs@)),
                Err(e) => spec_rule(s.spec_bytes()) is None && (e == RuleError::MissingEq <==> find_byte(
                    s.spec_bytes(),
                    61,
                ) == s.spec_bytes().len()),
            },
    {
        let bytes = s.as_bytes();
        let n = bytes.len();
        let e = scan_byte(bytes, 0, 61);
        proof {
            assert(bytes@.subrange(0, n as int) =~= bytes@);
            assert(find_byte(bytes@, 61) == e as int);
        }
        if e == n {
            return Err(RuleError::MissingEq);
        }
        let as_ch = match parse_num(bytes, 0, e) {
            Some(v) => v,
            None => {
                proof {
                    assert(bytes@.subrange(0, e as int) =~= bytes@.take(e as int));
                }
                return Err(RuleError::BadNumber);
            },
        };
        proof {
            assert(bytes@.subrange(0, e as int) =~= bytes@.take(e as int));
        }
        let mut chs: Vec<u8> = Vec::new();
        let mut start: usize = e + 1;
        let ghost whole = bytes@.skip(e as int + 1);
        proof {
            assert(whole =~= bytes@.subrange(e as int + 1, n as int));
        }
        loop
            invariant
                e < n,
                n == bytes@.len(),
                bytes@ == s.spec_bytes(),
                find_byte(bytes@, 61) == e as int,
                valid_num(bytes@.take(e as int)),
                as_ch == digits_val(bytes@.take(e as int)) as u8,
                e as int + 1 <= start <= n,
                whole == bytes@.skip(e as int + 1),
                parse_list(whole) == (match parse_list(bytes@.subrange(start as int, n as int)) {
                    Some(t) => Some(chs@ + t),
                    None => None::<Seq<u8>>,
                }),
            decreases n - start,
        {
            let ghost rest = bytes@.subrange(start as int, n as int);
            let ghost chs0 = chs@;
            let c = scan_byte(bytes, start, 44);
            if c == n {
                match parse_num(bytes, start, n) {
                    Some(v) => {
                        proof {
                            assert(find_byte(rest, 44) == rest.len());
                            assert(parse_list(rest) == Some(seq![v]));
                        }
                        chs.push(v);
                        proof {
                            assert(chs@ =~= chs0 + seq![v]);
                            assert(parse_list(whole) == Some(chs@));
                        }
                        return Ok(Rule::new(chs, as_ch));
                    },
                    None => {
                        return Err(RuleError::BadNumber);
                    },
                }
            } else {
                match parse_num(bytes, start, c) {
                    Some(v) => {
                        proof {
                            assert(rest.take(c - start) =~= bytes@.subrange(
                                start as int,
                                c as int,
                            ));
                            assert(rest.skip(c - start + 1) =~= bytes@.subrange(
                                c as int + 1,
                                n as int,
                            ));
                            assert(find_byte(rest, 44) == c - start);
                        }
                        chs.push(v);
                        proof {
                            assert(chs@ =~= chs0 + seq![v]);
                            match parse_list(bytes@.subrange(c as int + 1, n as int)) {
                                Some(t) => {
                                    assert(chs0 + (seq![v] + t) =~= (chs0 + seq![v]) + t);
                                },
                                None => {},
                            }
                        }
                        start = c + 1;
                    },
                    None => {
                        proof {
                            assert(rest.take(c - start) =~= bytes@.subrange(
                                start as int,
                                c as int,
                            ));
                            assert(find_byte(rest, 44) == c - start);
                        }
                        return Err(RuleError::BadNumber);
                    },
                }
            }
        }
    }
}

} // verus!
