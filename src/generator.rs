use vstd::prelude::*;
use rand::seq::SliceRandom;
use crate::credential::{CredentialView, Password};
use crate::error::Error;
use crate::text::{append_char, chars_of};

verus! {

pub const LOWERCASE_CHARACTERS: &'static str = "abcdefghijklmnopqrstuvwxyz";

pub const UPPERCASE_CHARACTERS: &'static str = "ABCDEFGHIJKLMNOPQRSTUVWXYZ";

pub const NUMBERS: &'static str = "0123456789";

pub const SPECIAL_CHARACTERS: &'static str = "!@#$%^&*()-_=+[]{}<>/?";

/// How many candidates the generator draws before it gives up.
pub const MAX_ATTEMPTS: u64 = 1000000;

/// What a generated password must satisfy.
pub struct PasswordBuildOptions {
    pub length: usize,
    pub use_special: bool,
    pub use_numbers: bool,
    pub use_upper: bool,
    /// Characters that never appear, whatever their class.
    pub exclude_char: Vec<char>,
}

/// The classes that the options enable, in order: lowercase always, then uppercase,
/// digits and special characters as their flags say.
pub open spec fn full_charset(o: PasswordBuildOptions) -> Seq<char> {
    LOWERCASE_CHARACTERS@ + (if o.use_upper {
        UPPERCASE_CHARACTERS@
    } else {
        Seq::empty()
    }) + (if o.use_numbers {
        NUMBERS@
    } else {
        Seq::empty()
    }) + (if o.use_special {
        SPECIAL_CHARACTERS@
    } else {
        Seq::empty()
    })
}

/// Whether `c` is outside `exclude`.
pub open spec fn not_in(exclude: Seq<char>) -> spec_fn(char) -> bool {
    |c: char| !exclude.contains(c)
}

/// Whether the options let `c` appear.
pub open spec fn allowed(o: PasswordBuildOptions) -> spec_fn(char) -> bool {
    not_in(o.exclude_char@)
}

/// The alphabet that characters are drawn from: the enabled classes without the
/// excluded characters.
pub open spec fn charset(o: PasswordBuildOptions) -> Seq<char> {
    full_charset(o).filter(allowed(o))
}

/// A class must be hit when it is enabled and not all of its characters are excluded.
pub open spec fn class_required(o: PasswordBuildOptions, class: Seq<char>, enabled: bool) -> bool {
    enabled && exists|i: int| 0 <= i < class.len() && !o.exclude_char@.contains(#[trigger] class[i])
}

/// `pw` holds a character of `class`.
pub open spec fn hits(pw: Seq<char>, class: Seq<char>) -> bool {
    exists|i: int| 0 <= i < pw.len() && class.contains(#[trigger] pw[i])
}

/// How many classes a password must hit.
pub open spec fn required_count(o: PasswordBuildOptions) -> nat {
    (if class_required(o, UPPERCASE_CHARACTERS@, o.use_upper) {
        1nat
    } else {
        0nat
    }) + (if class_required(o, NUMBERS@, o.use_numbers) {
        1nat
    } else {
        0nat
    }) + (if class_required(o, SPECIAL_CHARACTERS@, o.use_special) {
        1nat
    } else {
        0nat
    })
}

/// Some password meets the options: the alphabet is not empty and the length leaves
/// room for each class that must be hit.
pub open spec fn satisfiable(o: PasswordBuildOptions) -> bool {
    charset(o).len() > 0 && required_count(o) <= o.length
}

/// `pw` has the length asked for and hits each class that must be hit: what
/// `verify_password` checks of a candidate.
pub open spec fn meets_classes(o: PasswordBuildOptions, pw: Seq<char>) -> bool {
    &&& pw.len() == o.length
    &&& class_required(o, UPPERCASE_CHARACTERS@, o.use_upper) ==> hits(pw, UPPERCASE_CHARACTERS@)
    &&& class_required(o, NUMBERS@, o.use_numbers) ==> hits(pw, NUMBERS@)
    &&& class_required(o, SPECIAL_CHARACTERS@, o.use_special) ==> hits(pw, SPECIAL_CHARACTERS@)
}

/// `pw` draws only on the alphabet, has the length asked for, and hits each class that
/// must be hit.
pub open spec fn meets_options(o: PasswordBuildOptions, pw: Seq<char>) -> bool {
    &&& meets_classes(o, pw)
    &&& forall|i: int| 0 <= i < pw.len() ==> charset(o).contains(#[trigger] pw[i])
}

/// Relies on rand's `SliceRandom::choose` with `rand::thread_rng()`: an element of the
/// slice drawn at random, or `None` when the slice is empty.
#[verifier::external_body]
fn choose_char(set: &Vec<char>) -> (r: Option<char>)
    ensures
        match r {
            Some(c) => set@.contains(c),
            None => set@.len() == 0,
        },
{
    set.as_slice().choose(&mut rand::thread_rng()).copied()
}

/// Whether `v` holds `c`.
fn holds_char(v: &Vec<char>, c: char) -> (r: bool)
    ensures
        r == v@.contains(c),
{
    let mut i: usize = 0;
    while i < v.len()
        invariant
            i <= v.len(),
            forall|k: int| 0 <= k < i ==> v@[k] != c,
        decreases v.len() - i,
    {
        if v[i] == c {
            return true;
        }
        i = i + 1;
    }
    false
}

/// Appends to `out` the characters of `class` that `exclude` lets through.
fn push_allowed(out: &mut Vec<char>, class: &str, exclude: &Vec<char>)
    ensures
        final(out)@ == old(out)@ + class@.filter(not_in(exclude@)),
{
    let cs = chars_of(class);
    let ghost pred = not_in(exclude@);
    let mut i: usize = 0;
    proof {
        reveal(Seq::filter);
        assert(cs@.subrange(0, 0) =~= Seq::<char>::empty());
        assert(out@ =~= old(out)@ + cs@.subrange(0, 0).filter(pred));
    }
    while i < cs.len()
        invariant
            i <= cs.len(),
            cs@ == class@,
            pred == not_in(exclude@),
            out@ == old(out)@ + cs@.subrange(0, i as int).filter(pred),
        decreases cs.len() - i,
    {
        proof {
            reveal(Seq::filter);
            let t = cs@.subrange(0, i + 1);
            assert(t.drop_last() =~= cs@.subrange(0, i as int));
            assert(t.last() == cs@[i as int]);
        }
        if !holds_char(exclude, cs[i]) {
            out.push(cs[i]);
            assert(out@ =~= old(out)@ + cs@.subrange(0, i + 1).filter(pred));
        } else {
            assert(out@ =~= old(out)@ + cs@.subrange(0, i + 1).filter(pred));
        }
        i = i + 1;
    }
    assert(cs@.subrange(0, cs@.len() as int) =~= cs@);
}

/// Whether some character of `class` is outside `exclude`.
fn any_allowed(class: &Vec<char>, exclude: &Vec<char>) -> (r: bool)
    ensures
        r == exists|i: int| 0 <= i < class@.len() && !exclude@.contains(#[trigger] class@[i]),
{
    let mut i: usize = 0;
    while i < class.len()
        invariant
            i <= class.len(),
            forall|k: int| 0 <= k < i ==> exclude@.contains(#[trigger] class@[k]),
        decreases class.len() - i,
    {
        if !holds_char(exclude, class[i]) {
            return true;
        }
        i = i + 1;
    }
    false
}

/// Whether `pw` holds a character of `class`.
fn hits_class(pw: &Vec<char>, class: &Vec<char>) -> (r: bool)
    ensures
        r == hits(pw@, class@),
{
    let mut i: usize = 0;
    while i < pw.len()
        invariant
            i <= pw.len(),
            forall|k: int| 0 <= k < i ==> !class@.contains(#[trigger] pw@[k]),
        decreases pw.len() - i,
    {
        if holds_char(class, pw[i]) {
            return true;
        }
        i = i + 1;
    }
    false
}

/// Whether `class`, enabled when `enabled` holds, must be hit under `o`.
fn class_needed(class: &str, enabled: bool, o: &PasswordBuildOptions) -> (r: bool)
    ensures
        r == class_required(*o, class@, enabled),
{
    if !enabled {
        return false;
    }
    let cs = chars_of(class);
    any_allowed(&cs, &o.exclude_char)
}

/// The error that generation under `o` gives when it does not succeed.
pub open spec fn generation_error(o: PasswordBuildOptions) -> Error {
    if charset(o).len() == 0 {
        Error::EmptyAlphabet
    } else if required_count(o) > o.length {
        Error::Unsatisfiable
    } else {
        Error::GenerationFailed
    }
}

/// A password meets `o`: it has the length asked for, holds no excluded character, and
/// holds a character of each enabled class that is not wholly excluded.
pub proof fn lemma_generated_password_constraints(o: PasswordBuildOptions, pw: Seq<char>)
    requires
        meets_options(o, pw),
    ensures
        pw.len() == o.length,
        forall|i: int| 0 <= i < pw.len() ==> !o.exclude_char@.contains(#[trigger] pw[i]),
        class_required(o, UPPERCASE_CHARACTERS@, o.use_upper) ==> hits(pw, UPPERCASE_CHARACTERS@),
        class_required(o, NUMBERS@, o.use_numbers) ==> hits(pw, NUMBERS@),
        class_required(o, SPECIAL_CHARACTERS@, o.use_special) ==> hits(pw, SPECIAL_CHARACTERS@),
{
    assert forall|i: int| 0 <= i < pw.len() implies !o.exclude_char@.contains(#[trigger] pw[i]) by {
        let cs = charset(o);
        assert(cs.contains(pw[i]));
        let k = choose|k: int| 0 <= k < cs.len() && cs[k] == pw[i];
        full_charset(o).lemma_filter_pred(allowed(o), k);
    }
}

/// Builds passwords for one credential.
pub struct PasswordBuilder {
    pub username: String,
    pub place: String,
    pub options: PasswordBuildOptions,
}

impl PasswordBuilder {
    pub fn from(username: String, place: String, options: PasswordBuildOptions) -> (r: Self)
        ensures
            r.username == username,
            r.place == place,
            r.options == options,
    {
        PasswordBuilder { username, place, options }
    }

    /// The alphabet of `options`: lowercase letters, then uppercase letters, digits and
    /// special characters as enabled, without the excluded characters.
    pub fn build_charset(options: &PasswordBuildOptions) -> (r: Vec<char>)
        ensures
            r@ == charset(*options),
    {
        let mut r: Vec<char> = Vec::new();
        push_allowed(&mut r, LOWERCASE_CHARACTERS, &options.exclude_char);
        if options.use_upper {
            push_allowed(&mut r, UPPERCASE_CHARACTERS, &options.exclude_char);
        }
        if options.use_numbers {
            push_allowed(&mut r, NUMBERS, &options.exclude_char);
        }
        if options.use_special {
            push_allowed(&mut r, SPECIAL_CHARACTERS, &options.exclude_char);
        }
        proof {
            broadcast use Seq::filter_distributes_over_add;
            let p = allowed(*options);
            assert(Seq::<char>::empty().filter(p) =~= Seq::<char>::empty()) by {
                reveal(Seq::filter);
            }
            assert(r@ =~= charset(*options));
        }
        r
    }

    /// One random draw: `options.length` characters from the alphabet, each on its own;
    /// `EmptyAlphabet` when the alphabet is empty. It does not see to it that each
    /// enabled class is hit; `generate_valid_password` draws again until one is, and is
    /// the generator that callers wanting the class constraints use.
    pub fn generate_password(options: &PasswordBuildOptions) -> (r: Result<String, Error>)
        ensures
            charset(*options).len() == 0 <==> r == Err::<String, Error>(Error::EmptyAlphabet),
            charset(*options).len() > 0 <==> r is Ok,
            r matches Ok(p) ==> p@.len() == options.length && forall|i: int|
                0 <= i < p@.len() ==> charset(*options).contains(#[trigger] p@[i]),
    {
        let cs = Self::build_charset(options);
        if cs.len() == 0 {
            return Err(Error::EmptyAlphabet);
        }
        let mut r = String::new();
        let mut i: usize = 0;
        while i < options.length
            invariant
                i <= options.length,
                cs@ == charset(*options),
                cs@.len() > 0,
                r@.len() == i,
                forall|k: int| 0 <= k < r@.len() ==> cs@.contains(#[trigger] r@[k]),
            decreases options.length - i,
        {
            match choose_char(&cs) {
                Some(c) => append_char(&mut r, c),
                None => return Err(Error::EmptyAlphabet),
            }
            i = i + 1;
        }
        Ok(r)
    }

    /// Whether `password` has the length of `options` and a character of each enabled
    /// class that is not wholly excluded. Which characters it holds beyond that is not
    /// checked.
    pub fn verify_password(options: &PasswordBuildOptions, password: &str) -> (r: bool)
        ensures
            r == meets_classes(*options, password@),
    {
        let pw = chars_of(password);
        if pw.len() != options.length {
            return false;
        }
        let upper = chars_of(UPPERCASE_CHARACTERS);
        if class_needed(UPPERCASE_CHARACTERS, options.use_upper, options)
            && !hits_class(&pw, &upper) {
            return false;
        }
        let numbers = chars_of(NUMBERS);
        if class_needed(NUMBERS, options.use_numbers, options) && !hits_class(
            &pw,
            &numbers,
        ) {
            return false;
        }
        let special = chars_of(SPECIAL_CHARACTERS);
        if class_needed(SPECIAL_CHARACTERS, options.use_special, options)
            && !hits_class(&pw, &special) {
            return false;
        }
        true
    }

    /// Draws whole candidates with `generate_password` until one meets `options`.
    /// Options that no password can meet are refused first: `EmptyAlphabet` for an
    /// empty alphabet, `Unsatisfiable` when the length is below the number of classes
    /// to hit. When no class must be hit, the first candidate is returned.
    /// `GenerationFailed` after `MAX_ATTEMPTS` candidates that all missed.
    pub fn generate_valid_password(options: &PasswordBuildOptions) -> (r: Result<String, Error>)
        ensures
            charset(*options).len() == 0 ==> r == Err::<String, Error>(Error::EmptyAlphabet),
            charset(*options).len() > 0 && required_count(*options) == 0 ==> r is Ok,
            match r {
                Ok(p) => meets_options(*options, p@),
                Err(e) => e == generation_error(*options),
            },
    {
        let cs = Self::build_charset(options);
        if cs.len() == 0 {
            return Err(Error::EmptyAlphabet);
        }
        let mut needed: usize = 0;
        if class_needed(UPPERCASE_CHARACTERS, options.use_upper, options) {
            needed = needed + 1;
        }
        if class_needed(NUMBERS, options.use_numbers, options) {
            needed = needed + 1;
        }
        if class_needed(SPECIAL_CHARACTERS, options.use_special, options) {
            needed = needed + 1;
        }
        assert(needed == required_count(*options));
        if needed > options.length {
            return Err(Error::Unsatisfiable);
        }
        let mut attempts: u64 = 0;
        while attempts < MAX_ATTEMPTS
            invariant
                charset(*options).len() > 0,
                generation_error(*options) == Error::GenerationFailed,
                required_count(*options) == 0 ==> attempts == 0,
            decreases MAX_ATTEMPTS - attempts,
        {
            let candidate = match Self::generate_password(options) {
                Ok(p) => p,
                Err(e) => return Err(e),
            };
            if Self::verify_password(options, candidate.as_str()) {
                return Ok(candidate);
            }
            attempts = attempts + 1;
        }
        Err(Error::GenerationFailed)
    }

    /// A plaintext credential for the builder's place and username, with a password
    /// drawn by `generate_valid_password`.
    pub fn to_password(&self) -> (r: Result<Password, Error>)
        ensures
            charset(self.options).len() > 0 && required_count(self.options) == 0 ==> r is Ok,
            match r {
                Ok(p) => p@.place == self.place@ && p@.username == self.username@ && !p@.encrypted
                    && meets_options(self.options, p@.password),
                Err(e) => e == generation_error(self.options),
            },
    {
        let password = Self::generate_valid_password(&self.options)?;
        Ok(Password::new(self.username.clone(), self.place.clone(), password))
    }
}

} // verus!
