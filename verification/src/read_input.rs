//! Command-line argument handling: the argument list, the flags that can
//! be read from it, and the error kinds of the input layer. Reading files
//! and drawing random seeds belong to the surrounding program; this module
//! owns the decisions that can be made from the argument strings alone.

use vstd::prelude::*;
use vstd::string::StrSliceExecFns;

verus! {

/// The ways reading the problem input can fail.
#[derive(Debug)]
pub enum InputError {
    FileNotFound(String),
    InvalidFormat(String),
    InvalidPath(String),
    NoArgs,
    InvalidArgumentSeed,
    InvalidSeed,
}

/// Whether one of the arguments is exactly the given flag.
pub open spec fn has_flag(args: Seq<String>, flag: Seq<char>) -> bool {
    exists|i: int| 0 <= i < args.len() && (#[trigger] args[i])@ == flag
}

/// Whether `p` is the position of the first argument equal to the flag.
pub open spec fn is_first_flag_pos(args: Seq<String>, flag: Seq<char>, p: int) -> bool {
    &&& 0 <= p < args.len()
    &&& (args[p])@ == flag
    &&& forall|t: int| 0 <= t < p ==> (#[trigger] args[t])@ != flag
}

/// Whether a character is a decimal digit.
pub open spec fn is_digit_char(c: char) -> bool {
    48 <= c as u32 <= 57
}

/// The numeric value of a decimal digit.
pub open spec fn digit_val(c: char) -> int {
    c as u32 - 48
}

/// Whether every character is a decimal digit.
pub open spec fn all_digits(s: Seq<char>) -> bool {
    forall|i: int| 0 <= i < s.len() ==> is_digit_char(#[trigger] s[i])
}

/// The value of a sequence of decimal digits, most significant first.
pub open spec fn digits_val(s: Seq<char>) -> int
    decreases s.len(),
{
    if s.len() == 0 {
        0
    } else {
        digits_val(s.drop_last()) * 10 + digit_val(s.last())
    }
}

/// The value of a digit sequence is never negative.
pub proof fn lemma_digits_val_nonneg(s: Seq<char>)
    requires
        all_digits(s),
    ensures
        digits_val(s) >= 0,
    decreases s.len(),
{
    if s.len() > 0 {
        assert forall|i: int| 0 <= i < s.drop_last().len() implies is_digit_char(
            #[trigger] s.drop_last()[i],
        ) by {
            assert(s.drop_last()[i] == s[i]);
        }
        lemma_digits_val_nonneg(s.drop_last());
    }
}

/// What parsing a signed 32-bit integer from a string yields: an optional
/// leading sign, then at least one decimal digit and nothing else, with
/// the value in range; anything else is rejected.
pub open spec fn parse_i32_spec(s: Seq<char>) -> Option<i32> {
    let negative = s.len() > 0 && s[0] == '-';
    let signed = s.len() > 0 && (s[0] == '-' || s[0] == '+');
    let ds = if signed {
        s.drop_first()
    } else {
        s
    };
    if ds.len() == 0 || !all_digits(ds) {
        None
    } else {
        let v = if negative {
            -digits_val(ds)
        } else {
            digits_val(ds)
        };
        if i32::MIN <= v <= i32::MAX {
            Some(v as i32)
        } else {
            None
        }
    }
}

/// Parses a signed 32-bit decimal integer, as `parse_i32_spec` describes.
pub fn parse_i32(s: &str) -> (r: Option<i32>)
    ensures
        r == parse_i32_spec(s@),
{
    let len = s.unicode_len();
    if len == 0 {
        return None;
    }
    let first = s.get_char(0);
    let negative = first == '-';
    let signed = negative || first == '+';
    let start: usize = if signed {
        1
    } else {
        0
    };
    let ghost ds = if signed {
        s@.drop_first()
    } else {
        s@
    };
    if start >= len {
        // a bare sign has no digits
        return None;
    }
    // the magnitude, capped just above the 32-bit range so that overflow
    // is detected without tracking the full value
    let cap: u64 = 3_000_000_000;
    let mut acc: u64 = 0;
    let mut i = start;
    while i < len
        invariant
            start <= i <= len,
            len == s@.len(),
            negative == (s@.len() > 0 && s@[0] == '-'),
            signed == (s@.len() > 0 && (s@[0] == '-' || s@[0] == '+')),
            start == if signed {
                1int
            } else {
                0int
            },
            ds == if signed {
                s@.drop_first()
            } else {
                s@
            },
            cap == 3_000_000_000,
            forall|t: int| 0 <= t < i - start ==> is_digit_char(#[trigger] ds[t]),
            acc <= cap,
            acc == digits_val(ds.take(i - start)) || (acc == cap && digits_val(
                ds.take(i - start),
            ) >= cap),
        decreases len - i,
    {
        let c = s.get_char(i);
        let code = c as u32;
        if code < 48 || code > 57 {
            proof {
                let sds = if s@.len() > 0 && (s@[0] == '-' || s@[0] == '+') {
                    s@.drop_first()
                } else {
                    s@
                };
                assert(sds == ds);
                assert(ds[i - start] == s@[i as int]);
                assert(!is_digit_char(sds[i - start]));
                assert(!all_digits(sds));
                assert(parse_i32_spec(s@) is None);
            }
            return None;
        }
        let d: u64 = (code - 48) as u64;
        let ghost prev = ds.take(i - start);
        proof {
            assert(ds.take(i - start + 1).drop_last() =~= prev);
            assert(ds.take(i - start + 1).last() == ds[i - start]);
            assert(ds[i - start] == s@[i as int]);
            lemma_digits_val_nonneg(prev);
        }
        if acc >= cap / 10 + 1 {
            acc = cap;
        } else {
            acc = acc * 10 + d;
            if acc > cap {
                acc = cap;
            }
        }
        proof {
            let cur = ds.take(i - start + 1);
            assert(digits_val(cur) == digits_val(prev) * 10 + digit_val(ds[i - start]));
        }
        i += 1;
    }
    proof {
        assert(ds.take(len - start) =~= ds);
        assert(all_digits(ds));
        lemma_digits_val_nonneg(ds);
    }
    if negative {
        if acc > 2_147_483_648 {
            return None;
        }
        if acc == 2_147_483_648 {
            return Some(i32::MIN);
        }
        Some(-(acc as i32))
    } else {
        if acc > 2_147_483_647 {
            return None;
        }
        Some(acc as i32)
    }
}

/// What parsing an unsigned machine-word integer from a string yields:
/// an optional leading plus, then at least one decimal digit and nothing
/// else, with the value in range; anything else is rejected.
pub open spec fn parse_usize_spec(s: Seq<char>) -> Option<usize> {
    let signed = s.len() > 0 && s[0] == '+';
    let ds = if signed {
        s.drop_first()
    } else {
        s
    };
    if ds.len() == 0 || !all_digits(ds) {
        None
    } else if digits_val(ds) <= usize::MAX {
        Some(digits_val(ds) as usize)
    } else {
        None
    }
}

/// Parses an unsigned machine-word decimal integer, as `parse_usize_spec`
/// describes.
pub fn parse_usize(s: &str) -> (r: Option<usize>)
    ensures
        r == parse_usize_spec(s@),
{
    let len = s.unicode_len();
    if len == 0 {
        return None;
    }
    let first = s.get_char(0);
    let signed = first == '+';
    let start: usize = if signed {
        1
    } else {
        0
    };
    let ghost ds = if signed {
        s@.drop_first()
    } else {
        s@
    };
    if start >= len {
        // a bare sign has no digits
        return None;
    }
    // the magnitude, capped just above the machine-word range so that
    // overflow is detected without tracking the full value
    let cap: u128 = (usize::MAX as u128) + 1;
    let mut acc: u128 = 0;
    let mut i = start;
    while i < len
        invariant
            start <= i <= len,
            len == s@.len(),
            signed == (s@.len() > 0 && s@[0] == '+'),
            start == if signed {
                1int
            } else {
                0int
            },
            ds == if signed {
                s@.drop_first()
            } else {
                s@
            },
            cap == usize::MAX + 1,
            forall|t: int| 0 <= t < i - start ==> is_digit_char(#[trigger] ds[t]),
            acc <= cap,
            acc == digits_val(ds.take(i - start)) || (acc == cap && digits_val(
                ds.take(i - start),
            ) >= cap),
        decreases len - i,
    {
        let c = s.get_char(i);
        let code = c as u32;
        if code < 48 || code > 57 {
            proof {
                let sds = if s@.len() > 0 && s@[0] == '+' {
                    s@.drop_first()
                } else {
                    s@
                };
                assert(sds == ds);
                assert(ds[i - start] == s@[i as int]);
                assert(!is_digit_char(sds[i - start]));
                assert(!all_digits(sds));
                assert(parse_usize_spec(s@) is None);
            }
            return None;
        }
        let d: u128 = (code - 48) as u128;
        let ghost prev = ds.take(i - start);
        proof {
            assert(ds.take(i - start + 1).drop_last() =~= prev);
            assert(ds.take(i - start + 1).last() == ds[i - start]);
            assert(ds[i - start] == s@[i as int]);
            lemma_digits_val_nonneg(prev);
        }
        if acc >= cap / 10 + 1 {
            acc = cap;
        } else {
            acc = acc * 10 + d;
            if acc > cap {
                acc = cap;
            }
        }
        proof {
            let cur = ds.take(i - start + 1);
            assert(digits_val(cur) == digits_val(prev) * 10 + digit_val(ds[i - start]));
        }
        i += 1;
    }
    proof {
        assert(ds.take(len - start) =~= ds);
        assert(all_digits(ds));
        lemma_digits_val_nonneg(ds);
    }
    if acc > usize::MAX as u128 {
        return None;
    }
    Some(acc as usize)
}

/// Whether a string begins with a dash, the mark of another flag.
pub open spec fn starts_dash(s: Seq<char>) -> bool {
    s.len() > 0 && s[0] == '-'
}

/// Whether the string begins with a dash.
fn starts_dash_exec(s: &String) -> (r: bool)
    ensures
        r == starts_dash(s@),
{
    let st = s.as_str();
    if st.unicode_len() == 0 {
        false
    } else {
        st.get_char(0) == '-'
    }
}

/// Copies a vector of seeds.
fn copy_i32_vec(v: &Vec<i32>) -> (r: Vec<i32>)
    ensures
        r@ == v@,
{
    let mut r: Vec<i32> = Vec::new();
    let mut k: usize = 0;
    while k < v.len()
        invariant
            k <= v@.len(),
            r@ == v@.take(k as int),
        decreases v@.len() - k,
    {
        r.push(v[k]);
        proof {
            assert(r@ =~= v@.take(k as int + 1));
        }
        k += 1;
    }
    proof {
        assert(v@.take(v@.len() as int) =~= v@);
    }
    r
}

#[verifier::external_type_specification]
#[verifier::external_body]
pub struct ExThreadRng(rand::rngs::ThreadRng);

/// Relies on rand's `thread_rng`: a handle to the thread-local generator.
#[verifier::external_body]
fn thread_rng_handle() -> rand::rngs::ThreadRng {
    rand::thread_rng()
}

/// Relies on rand's `Rng::gen`: one draw of a 32-bit integer; nothing can
/// be promised of its value.
#[verifier::external_body]
fn random_i32(rng: &mut rand::rngs::ThreadRng) -> i32 {
    rand::Rng::gen(rng)
}

/// What the seed list must be when `-s` stands first at `p` with a value
/// after it and `-rs` is absent: one seed, or the inclusive range between
/// two, and a rejection for anything that does not parse or is reversed.
pub open spec fn seed_flag_outcome(
    args: Seq<String>,
    p: int,
    r: Result<Vec<i32>, InputError>,
) -> bool {
    let first = parse_i32_spec((args[p + 1])@);
    if p + 1 >= args.len() {
        r is Err && r->Err_0 is InvalidFormat
    } else if first is None {
        r is Err && r->Err_0 is InvalidSeed
    } else if p + 2 >= args.len() || starts_dash((args[p + 2])@) {
        r is Ok && (r->Ok_0)@ == seq![first->Some_0]
    } else {
        let second = parse_i32_spec((args[p + 2])@);
        if second is None {
            r is Err && r->Err_0 is InvalidSeed
        } else if first->Some_0 > second->Some_0 {
            r is Err && r->Err_0 is InvalidSeed
        } else {
            &&& r is Ok
            &&& (r->Ok_0)@.len() == second->Some_0 - first->Some_0 + 1
            &&& forall|k: int| 0 <= k < (r->Ok_0)@.len() ==> (r->Ok_0)@[k] == first->Some_0 + k
        }
    }
}

/// What the seed list must be when `-rs` stands first at `p` and `-s` is
/// absent: as many seeds as asked for, their values drawn at random, so
/// only their number is promised.
pub open spec fn random_seed_outcome(
    args: Seq<String>,
    p: int,
    r: Result<Vec<i32>, InputError>,
) -> bool {
    if p + 1 >= args.len() {
        r is Err && r->Err_0 is InvalidFormat
    } else {
        let n = parse_usize_spec((args[p + 1])@);
        if n is None {
            r is Err && r->Err_0 is InvalidSeed
        } else if n->Some_0 == 0 {
            r is Err && r->Err_0 is InvalidSeed
        } else {
            r is Ok && (r->Ok_0)@.len() == n->Some_0
        }
    }
}

/// The argument list together with the seeds read for it.
pub struct ReadInput {
    pub args: Vec<String>,
    pub seeds: Vec<i32>,
}

impl ReadInput {
    /// Wraps an argument list; a list holding nothing but the program
    /// name is rejected.
    pub fn new(args: Vec<String>) -> (r: Result<ReadInput, InputError>)
        ensures
            match r {
                Ok(ri) => {
                    &&& args@.len() != 1
                    &&& ri.args@ == args@
                    &&& ri.seeds@.len() == 0
                },
                Err(e) => args@.len() == 1 && e is NoArgs,
            },
    {
        if args.len() == 1 {
            return Err(InputError::NoArgs);
        }
        Ok(ReadInput { args, seeds: Vec::new() })
    }

    /// Whether the given flag occurs among the arguments.
    fn get_flag(&self, flag: &str) -> (r: bool)
        ensures
            r == has_flag(self.args@, flag@),
    {
        let f: String = flag.to_owned();
        let mut k: usize = 0;
        while k < self.args.len()
            invariant
                k <= self.args@.len(),
                f@ == flag@,
                forall|t: int| 0 <= t < k ==> (#[trigger] self.args@[t])@ != flag@,
            decreases self.args@.len() - k,
        {
            if self.args[k] == f {
                proof {
                    assert((self.args@[k as int])@ == flag@);
                }
                return true;
            }
            k += 1;
        }
        false
    }

    /// The position of the first argument equal to the given flag.
    fn get_position_flag(&self, flag: &str) -> (r: Option<usize>)
        ensures
            match r {
                Some(p) => {
                    &&& p < self.args@.len()
                    &&& (self.args@[p as int])@ == flag@
                    &&& forall|t: int| 0 <= t < p ==> (#[trigger] self.args@[t])@ != flag@
                },
                None => !has_flag(self.args@, flag@),
            },
    {
        let f: String = flag.to_owned();
        let mut k: usize = 0;
        while k < self.args.len()
            invariant
                k <= self.args@.len(),
                f@ == flag@,
                forall|t: int| 0 <= t < k ==> (#[trigger] self.args@[t])@ != flag@,
            decreases self.args@.len() - k,
        {
            if self.args[k] == f {
                return Some(k);
            }
            k += 1;
        }
        None
    }

    /// The seeds for the runs: the cached list if one was already read;
    /// one seed or an inclusive range of seeds after `-s`; or a number of
    /// randomly drawn seeds after `-rs`. Mixing the two flags, leaving out
    /// both, leaving out the value, and values that do not parse are
    /// rejected.
    pub fn get_seed(&mut self) -> (r: Result<Vec<i32>, InputError>)
        ensures
            final(self).args@ == old(self).args@,
            r is Err ==> final(self).seeds@ == old(self).seeds@,
            r is Ok ==> final(self).seeds@ == (r->Ok_0)@,
            old(self).seeds@.len() > 0 ==> r is Ok && (r->Ok_0)@ == old(self).seeds@,
            old(self).seeds@.len() == 0 && has_flag(old(self).args@, "-s"@) && has_flag(
                old(self).args@,
                "-rs"@,
            ) ==> r is Err && r->Err_0 is InvalidArgumentSeed,
            old(self).seeds@.len() == 0 && !has_flag(old(self).args@, "-s"@) && !has_flag(
                old(self).args@,
                "-rs"@,
            ) ==> r is Err && r->Err_0 is InvalidSeed,
            old(self).seeds@.len() == 0 && !has_flag(old(self).args@, "-rs"@) ==> forall|p: int|
                #[trigger] is_first_flag_pos(old(self).args@, "-s"@, p) ==> seed_flag_outcome(
                    old(self).args@,
                    p,
                    r,
                ),
            old(self).seeds@.len() == 0 && !has_flag(old(self).args@, "-s"@) ==> forall|p: int|
                #[trigger] is_first_flag_pos(old(self).args@, "-rs"@, p) ==> random_seed_outcome(
                    old(self).args@,
                    p,
                    r,
                ),
    {
        if self.seeds.len() > 0 {
            let cached = copy_i32_vec(&self.seeds);
            return Ok(cached);
        }
        let pos_s = self.get_position_flag("-s");
        let pos_rs = self.get_position_flag("-rs");
        match (pos_s, pos_rs) {
            (Some(_), Some(_)) => Err(InputError::InvalidArgumentSeed),
            (Some(pos), None) => {
                proof {
                    assert(is_first_flag_pos(self.args@, "-s"@, pos as int));
                    assert forall|p: int|
                        #[trigger] is_first_flag_pos(self.args@, "-s"@, p) implies p
                        == pos as int by {
                        if p < pos as int {
                            assert((self.args@[p])@ == "-s"@);
                        } else if p > pos as int {
                            assert((self.args@[pos as int])@ == "-s"@);
                        }
                    }
                }
                let n_args = self.args.len();
                if pos >= n_args - 1 {
                    return Err(
                        InputError::InvalidFormat("No se encontro el valor de seed".to_owned()),
                    );
                }
                let start = match parse_i32(self.args[pos + 1].as_str()) {
                    Some(v) => v,
                    None => {
                        return Err(InputError::InvalidSeed);
                    },
                };
                let single = if pos + 2 >= self.args.len() {
                    true
                } else {
                    starts_dash_exec(&self.args[pos + 2])
                };
                if single {
                    let mut seeds: Vec<i32> = Vec::new();
                    seeds.push(start);
                    proof {
                        assert(seeds@ =~= seq![start]);
                    }
                    self.seeds = copy_i32_vec(&seeds);
                    Ok(seeds)
                } else {
                    let end = match parse_i32(self.args[pos + 2].as_str()) {
                        Some(v) => v,
                        None => {
                            return Err(InputError::InvalidSeed);
                        },
                    };
                    if start > end {
                        return Err(InputError::InvalidSeed);
                    }
                    let mut seeds: Vec<i32> = Vec::new();
                    let mut cur = start;
                    while cur < end
                        invariant
                            start <= cur <= end,
                            seeds@.len() == cur - start,
                            forall|k: int| 0 <= k < seeds@.len() ==> seeds@[k] == start + k,
                        decreases end - cur,
                    {
                        seeds.push(cur);
                        cur += 1;
                    }
                    seeds.push(end);
                    self.seeds = copy_i32_vec(&seeds);
                    Ok(seeds)
                }
            },
            (None, Some(pos)) => {
                proof {
                    assert(is_first_flag_pos(self.args@, "-rs"@, pos as int));
                    assert forall|p: int|
                        #[trigger] is_first_flag_pos(self.args@, "-rs"@, p) implies p
                        == pos as int by {
                        if p < pos as int {
                            assert((self.args@[p])@ == "-rs"@);
                        } else if p > pos as int {
                            assert((self.args@[pos as int])@ == "-rs"@);
                        }
                    }
                }
                let n_args = self.args.len();
                if pos >= n_args - 1 {
                    return Err(
                        InputError::InvalidFormat("No se encontro el valor de seed".to_owned()),
                    );
                }
                let n = match parse_usize(self.args[pos + 1].as_str()) {
                    Some(v) => v,
                    None => {
                        return Err(InputError::InvalidSeed);
                    },
                };
                if n == 0 {
                    return Err(InputError::InvalidSeed);
                }
                let mut rng = thread_rng_handle();
                let mut seeds: Vec<i32> = Vec::new();
                let mut k: usize = 0;
                while k < n
                    invariant
                        k <= n,
                        seeds@.len() == k,
                    decreases n - k,
                {
                    let v = random_i32(&mut rng);
                    seeds.push(v);
                    k += 1;
                }
                self.seeds = copy_i32_vec(&seeds);
                Ok(seeds)
            },
            (None, None) => Err(InputError::InvalidSeed),
        }
    }

    /// Whether verbose reporting was asked for.
    pub fn get_verbose(&self) -> (r: bool)
        ensures
            r == has_flag(self.args@, "-v"@),
    {
        self.get_flag("-v")
    }

    /// Whether a chart of the convergence curve was asked for.
    pub fn get_svg(&self) -> (r: bool)
        ensures
            r == has_flag(self.args@, "-svg"@),
    {
        self.get_flag("-svg")
    }

    /// Whether the usage text was asked for.
    pub fn get_help(&self) -> (r: bool)
        ensures
            r == (has_flag(self.args@, "-h"@) || has_flag(self.args@, "--help"@)),
    {
        self.get_flag("-h") || self.get_flag("--help")
    }
}

} // verus!
