use vstd::prelude::*;
use crate::codec::{first_index, int_opt, lemma_first_index_extends};
use crate::error::Error;
use crate::text::{append_str, string_views};

verus! {

/// The command line of the program: its name first, then its arguments.
pub struct CLI {
    arguments: Vec<String>,
}

impl View for CLI {
    type V = Seq<Seq<char>>;

    closed spec fn view(&self) -> Seq<Seq<char>> {
        string_views(self.arguments@)
    }
}

impl CLI {
    pub fn from(arguments: Vec<String>) -> (r: Self)
        ensures
            r@ == string_views(arguments@),
    {
        CLI { arguments }
    }

    /// A command line with nothing on it.
    pub fn new() -> (r: Self)
        ensures
            r@ == Seq::<Seq<char>>::empty(),
    {
        let r = CLI { arguments: Vec::new() };
        assert(r@ =~= Seq::<Seq<char>>::empty());
        r
    }

    /// Whether `--flag` is on the command line.
    pub fn contains_flag(&self, flag: &str) -> (r: bool)
        ensures
            r == exists|i: int| 0 <= i < self@.len() && #[trigger] self@[i] == seq!['-', '-'] + flag@,
    {
        let mut wanted = String::new();
        append_str(&mut wanted, "--");
        append_str(&mut wanted, flag);
        proof {
            reveal_strlit("--");
            assert(wanted@ =~= seq!['-', '-'] + flag@);
        }
        let mut i: usize = 0;
        while i < self.arguments.len()
            invariant
                i <= self.arguments.len(),
                wanted@ == seq!['-', '-'] + flag@,
                forall|k: int| 0 <= k < i ==> #[trigger] self@[k] != wanted@,
            decreases self.arguments.len() - i,
        {
            if self.arguments[i] == wanted {
                assert(self@[i as int] == wanted@);
                return true;
            }
            i = i + 1;
        }
        false
    }

    /// The first argument after the program's name.
    pub fn get_command(&self) -> (r: Option<&String>)
        ensures
            match r {
                Some(s) => self@.len() > 1 && s@ == self@[1],
                None => self@.len() <= 1,
            },
    {
        self.get_argument(0)
    }

    /// The argument at `index`, counted from 0 after the program's name.
    pub fn get_argument(&self, index: usize) -> (r: Option<&String>)
        ensures
            match r {
                Some(s) => index + 1 < self@.len() && s@ == self@[index + 1],
                None => index + 1 >= self@.len(),
            },
    {
        if self.arguments.len() > 0 && index < self.arguments.len() - 1 {
            Some(&self.arguments[index + 1])
        } else {
            None
        }
    }

    /// Where `needle` first stands among the arguments after the program's name,
    /// counted from 0.
    pub fn find_argument(&self, needle: &str) -> (r: Option<usize>)
        ensures
            int_opt(r) == (if self@.len() == 0 {
                None
            } else {
                first_index(self@.drop_first(), needle@)
            }),
    {
        if self.arguments.len() == 0 {
            return None;
        }
        let wanted = needle.to_owned();
        let ghost rest = self@.drop_first();
        let mut i: usize = 1;
        while i < self.arguments.len()
            invariant
                1 <= i <= self.arguments.len(),
                rest == self@.drop_first(),
                wanted@ == needle@,
                first_index(rest.subrange(0, i - 1), needle@) is None,
            decreases self.arguments.len() - i,
        {
            assert(rest.subrange(0, i as int).drop_last() =~= rest.subrange(0, i - 1));
            assert(rest[i - 1] == self@[i as int]);
            if self.arguments[i] == wanted {
                proof {
                    lemma_first_index_extends(rest, i as int, needle@);
                }
                return Some(i - 1);
            }
            i = i + 1;
        }
        assert(rest.subrange(0, rest.len() as int) =~= rest);
        None
    }

    /// The argument that follows the option `param_name`.
    pub fn get_option_value(&self, param_name: &str) -> (r: Option<&String>)
        ensures
            match (if self@.len() == 0 {
                None
            } else {
                first_index(self@.drop_first(), param_name@)
            }) {
                Some(i) => match r {
                    Some(s) => i + 2 < self@.len() && s@ == self@[i + 2],
                    None => i + 2 >= self@.len(),
                },
                None => r is None,
            },
    {
        match self.find_argument(param_name) {
            Some(v) => {
                proof {
                    lemma_first_index_bound(self@.drop_first(), param_name@);
                    assert(self@.len() == self.arguments@.len());
                    assert(self@.len() > 0);
                    assert(first_index(self@.drop_first(), param_name@) == Some(v as int));
                    assert(v < self.arguments.len() - 1);
                }
                self.get_argument(v + 1)
            },
            None => None,
        }
    }
}

proof fn lemma_first_index_bound(hs: Seq<Seq<char>>, name: Seq<char>)
    ensures
        match first_index(hs, name) {
            Some(i) => 0 <= i < hs.len() && hs[i] == name,
            None => true,
        },
    decreases hs.len(),
{
    if hs.len() > 0 {
        lemma_first_index_bound(hs.drop_last(), name);
    }
}

/// What `parse_yes_no` answers.
pub open spec fn yes_no(answer: Option<Seq<char>>) -> Option<bool> {
    match answer {
        Some(a) => if a == seq!['y'] {
            Some(true)
        } else if a == seq!['n'] {
            Some(false)
        } else {
            None
        },
        None => None,
    }
}

/// Reads an answer to a yes/no question: `y` or `n`; `EmptyInput` when there is no
/// answer and `BadInput` with the answer otherwise.
pub fn parse_yes_no(answer: Option<String>) -> (r: Result<bool, Error>)
    ensures
        match answer {
            None => r == Err::<bool, Error>(Error::EmptyInput),
            Some(a) => match yes_no(Some(a@)) {
                Some(b) => r == Ok::<bool, Error>(b),
                None => r == Err::<bool, Error>(Error::BadInput(a)),
            },
        },
{
    match answer {
        None => Err(Error::EmptyInput),
        Some(a) => {
            let y = "y".to_owned();
            let n = "n".to_owned();
            proof {
                reveal_strlit("y");
                reveal_strlit("n");
                assert(y@ =~= seq!['y']);
                assert(n@ =~= seq!['n']);
            }
            if a == y {
                Ok(true)
            } else if a == n {
                Ok(false)
            } else {
                Err(Error::BadInput(a))
            }
        },
    }
}

} // verus!
