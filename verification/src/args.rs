//! Argument handling for the synthetic-instance generator: the universe
//! size, the subset count and the seed are read once from their flags and
//! cached. A missing flag, a missing value and a value that is not a
//! 32-bit integer are ruled out by precondition, so a caller tests for
//! them first and stops with its own message.

use vstd::prelude::*;

use crate::read_input::has_flag;
use crate::read_input::is_first_flag_pos;
use crate::read_input::parse_i32;
use crate::read_input::parse_i32_spec;

verus! {

/// Whether the first occurrence of the flag is followed by a value that
/// parses as a 32-bit integer.
pub open spec fn flag_value_parses(args: Seq<String>, flag: Seq<char>) -> bool {
    exists|p: int|
        #[trigger] is_first_flag_pos(args, flag, p) && p + 1 < args.len() && parse_i32_spec(
            (args[p + 1])@,
        ) is Some
}

/// The generator's argument list, with each numeric option cached once it
/// has been read; `i32::MAX` marks a value not read yet.
pub struct Args {
    args: Vec<String>,
    number_universe: i32,
    number_subset: i32,
    seed: i32,
}

impl Args {
    /// The argument list.
    pub closed spec fn spec_args(self) -> Seq<String> {
        self.args@
    }

    /// The cached universe size.
    pub closed spec fn spec_number_universe(self) -> i32 {
        self.number_universe
    }

    /// The cached subset count.
    pub closed spec fn spec_number_subset(self) -> i32 {
        self.number_subset
    }

    /// The cached seed.
    pub closed spec fn spec_seed(self) -> i32 {
        self.seed
    }

    /// Wraps an argument list with all caches unset.
    pub fn new(args: Vec<String>) -> (r: Args)
        ensures
            r.spec_args() == args@,
            r.spec_number_universe() == i32::MAX,
            r.spec_number_subset() == i32::MAX,
            r.spec_seed() == i32::MAX,
    {
        Args { args, number_universe: i32::MAX, number_subset: i32::MAX, seed: i32::MAX }
    }

    /// Whether the given flag occurs among the arguments.
    fn get_flag(&self, flag: &str) -> (r: bool)
        ensures
            r == has_flag(self.args@, flag@),
    {
        let f: String = flag.to_owned();
        let mut k: usize = 0;
        while k < self.args.len()
            invariant
                k <= self.args@.len(),
                f@ == flag@,
                forall|t: int| 0 <= t < k ==> (#[trigger] self.args@[t])@ != flag@,
            decreases self.args@.len() - k,
        {
            if self.args[k] == f {
                proof {
                    assert((self.args@[k as int])@ == flag@);
                }
                return true;
            }
            k += 1;
        }
        false
    }

    /// The position of the first argument equal to the given flag.
    fn get_position_flag(&self, flag: &str) -> (r: Option<usize>)
        ensures
            match r {
                Some(p) => is_first_flag_pos(self.args@, flag@, p as int),
                None => !has_flag(self.args@, flag@),
            },
    {
        let f: String = flag.to_owned();
        let mut k: usize = 0;
        while k < self.args.len()
            invariant
                k <= self.args@.len(),
                f@ == flag@,
                forall|t: int| 0 <= t < k ==> (#[trigger] self.args@[t])@ != flag@,
            decreases self.args@.len() - k,
        {
            if self.args[k] == f {
                return Some(k);
            }
            k += 1;
        }
        None
    }

    /// Reads the 32-bit value that follows the first occurrence of the
    /// given flag.
    fn read_flag_value(&self, flag: &str) -> (r: i32)
        requires
            flag_value_parses(self.args@, flag@),
        ensures
            forall|p: int|
                #[trigger] is_first_flag_pos(self.args@, flag@, p) ==> parse_i32_spec(
                    (self.args@[p + 1])@,
                ) == Some(r),
    {
        match self.get_position_flag(flag) {
            Some(pos) => {
                proof {
                    let p = choose|p: int|
                        #[trigger] is_first_flag_pos(self.args@, flag@, p) && p + 1
                            < self.args@.len() && parse_i32_spec((self.args@[p + 1])@) is Some;
                    if p != pos as int {
                        if p < pos as int {
                            assert((self.args@[p])@ == flag@);
                        } else {
                            assert((self.args@[pos as int])@ == flag@);
                        }
                        assert(false);
                    }
                    assert(pos as int + 1 < self.args@.len());
                }
                let _args_len = self.args.len();
                let value = &self.args[pos + 1];
                match parse_i32(value.as_str()) {
                    Some(num) => {
                        proof {
                            assert forall|p: int|
                                #[trigger] is_first_flag_pos(
                                    self.args@,
                                    flag@,
                                    p,
                                ) implies parse_i32_spec((self.args@[p + 1])@) == Some(num) by {
                                if p != pos as int {
                                    if p < pos as int {
                                        assert((self.args@[p])@ == flag@);
                                    } else {
                                        assert((self.args@[pos as int])@ == flag@);
                                    }
                                }
                            }
                        }
                        num
                    },
                    None => {
                        proof {
                            assert(false);
                        }
                        0
                    },
                }
            },
            None => {
                proof {
                    let p = choose|p: int|
                        #[trigger] is_first_flag_pos(self.args@, flag@, p) && p + 1
                            < self.args@.len() && parse_i32_spec((self.args@[p + 1])@) is Some;
                    assert((self.args@[p])@ == flag@);
                    assert(has_flag(self.args@, flag@));
                }
                0
            },
        }
    }

    /// The seed, read from the value after `-s` on first use and cached.
    pub fn get_seed(&mut self) -> (r: i32)
        requires
            old(self).spec_seed() != i32::MAX || flag_value_parses(old(self).spec_args(), "-s"@),
        ensures
            final(self).spec_args() == old(self).spec_args(),
            final(self).spec_number_universe() == old(self).spec_number_universe(),
            final(self).spec_number_subset() == old(self).spec_number_subset(),
            final(self).spec_seed() == r,
            old(self).spec_seed() != i32::MAX ==> r == old(self).spec_seed(),
            old(self).spec_seed() == i32::MAX ==> forall|p: int|
                #[trigger] is_first_flag_pos(old(self).spec_args(), "-s"@, p) ==> parse_i32_spec(
                    (old(self).spec_args()[p + 1])@,
                ) == Some(r),
    {
        if self.seed < i32::MAX {
            return self.seed;
        }
        let num = self.read_flag_value("-s");
        self.seed = num;
        num
    }

    /// The universe size, read from the value after `-N` on first use and
    /// cached.
    pub fn get_number_universe(&mut self) -> (r: i32)
        requires
            old(self).spec_number_universe() != i32::MAX || flag_value_parses(
                old(self).spec_args(),
                "-N"@,
            ),
        ensures
            final(self).spec_args() == old(self).spec_args(),
            final(self).spec_seed() == old(self).spec_seed(),
            final(self).spec_number_subset() == old(self).spec_number_subset(),
            final(self).spec_number_universe() == r,
            old(self).spec_number_universe() != i32::MAX ==> r == old(
                self,
            ).spec_number_universe(),
            old(self).spec_number_universe() == i32::MAX ==> forall|p: int|
                #[trigger] is_first_flag_pos(old(self).spec_args(), "-N"@, p) ==> parse_i32_spec(
                    (old(self).spec_args()[p + 1])@,
                ) == Some(r),
    {
        if self.number_universe < i32::MAX {
            return self.number_universe;
        }
        let num = self.read_flag_value("-N");
        self.number_universe = num;
        num
    }

    /// The subset count, read from the value after `-S` on first use and
    /// cached.
    pub fn get_number_subset(&mut self) -> (r: i32)
        requires
            old(self).spec_number_subset() != i32::MAX || flag_value_parses(
                old(self).spec_args(),
                "-S"@,
            ),
        ensures
            final(self).spec_args() == old(self).spec_args(),
            final(self).spec_seed() == old(self).spec_seed(),
            final(self).spec_number_universe() == old(self).spec_number_universe(),
            final(self).spec_number_subset() == r,
            old(self).spec_number_subset() != i32::MAX ==> r == old(self).spec_number_subset(),
            old(self).spec_number_subset() == i32::MAX ==> forall|p: int|
                #[trigger] is_first_flag_pos(old(self).spec_args(), "-S"@, p) ==> parse_i32_spec(
                    (old(self).spec_args()[p + 1])@,
                ) == Some(r),
    {
        if self.number_subset < i32::MAX {
            return self.number_subset;
        }
        let num = self.read_flag_value("-S");
        self.number_subset = num;
        num
    }

    /// Whether the usage text was asked for.
    pub fn get_help(&self) -> (r: bool)
        ensures
            r == (has_flag(self.spec_args(), "-h"@) || has_flag(self.spec_args(), "--help"@)),
    {
        self.get_flag("-h") || self.get_flag("--help")
    }
}

} // verus!
