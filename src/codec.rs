use vstd::prelude::*;
use crate::credential::{backup_row, description, dump_row, views, CredentialView, Password};
use crate::error::{Column, Error};
use crate::cipher::is_base64_char;
use crate::text::{
    append_char, append_str, chars_of, free_of, split, split_text, string_views, trim_breaks,
    trim_breaks_chars, trim_breaks_end, trim_breaks_start,
};

verus! {

pub const CSV_PLACE: &'static str = "place";

pub const CSV_USERNAME: &'static str = "username";

pub const CSV_PASSWORD: &'static str = "password";

pub const CSV_ENCRYPTED: &'static str = "encrypted";

/// The header row of a backup, without its line break.
pub open spec fn backup_header() -> Seq<char> {
    CSV_PLACE@ + seq![','] + CSV_USERNAME@ + seq![','] + CSV_PASSWORD@
}

/// The header row of a dump, without its line break.
pub open spec fn dump_header() -> Seq<char> {
    backup_header() + seq![','] + CSV_ENCRYPTED@
}

/// The backup rows of `cs`, in order, each ending in a line break.
pub open spec fn backup_rows(cs: Seq<CredentialView>) -> Seq<char>
    decreases cs.len(),
{
    if cs.len() == 0 {
        Seq::empty()
    } else {
        backup_rows(cs.drop_last()) + backup_row(cs.last())
    }
}

/// A backup of `cs`: the header row, then one row per credential.
pub open spec fn backup_text(cs: Seq<CredentialView>) -> Seq<char> {
    backup_header() + seq!['\n'] + backup_rows(cs)
}

/// The dump rows of `cs`, in order, each ending in a line break.
pub open spec fn dump_rows(cs: Seq<CredentialView>) -> Seq<char>
    decreases cs.len(),
{
    if cs.len() == 0 {
        Seq::empty()
    } else {
        dump_rows(cs.drop_last()) + dump_row(cs.last()) + seq!['\n']
    }
}

/// A dump of `cs`: the header row, then one row per credential.
pub open spec fn dump_text(cs: Seq<CredentialView>) -> Seq<char> {
    dump_header() + seq!['\n'] + dump_rows(cs)
}

/// The lines of `t` once the line breaks at its two ends are dropped.
pub open spec fn text_lines(t: Seq<char>) -> Seq<Seq<char>> {
    split(trim_breaks(t), '\n')
}

/// The first position of `name` in `hs`.
pub open spec fn first_index(hs: Seq<Seq<char>>, name: Seq<char>) -> Option<int>
    decreases hs.len(),
{
    if hs.len() == 0 {
        None
    } else {
        match first_index(hs.drop_last(), name) {
            Some(i) => Some(i),
            None => if hs.last() == name {
                Some(hs.len() - 1)
            } else {
                None
            },
        }
    }
}

/// The value of an `encrypted` field: `1` or `0`.
pub open spec fn parse_flag(f: Seq<char>) -> Option<bool> {
    if f == seq!['1'] {
        Some(true)
    } else if f == seq!['0'] {
        Some(false)
    } else {
        None
    }
}

/// An optional position, as an integer.
pub open spec fn int_opt(o: Option<usize>) -> Option<int> {
    match o {
        Some(i) => Some(i as int),
        None => None,
    }
}

/// The credential that the fields of one data row give, when the place, username and
/// password stand at `p`, `u` and `w`, and the flag at `flag` where the format has one;
/// `line` is the row's line in the text.
pub open spec fn parse_row(
    fields: Seq<Seq<char>>,
    p: int,
    u: int,
    w: int,
    flag: Option<int>,
    line: int,
) -> Result<CredentialView, Error> {
    if p >= fields.len() {
        Err(Error::MissingField(Column::Place, line as usize))
    } else if u >= fields.len() {
        Err(Error::MissingField(Column::Username, line as usize))
    } else if w >= fields.len() {
        Err(Error::MissingField(Column::Password, line as usize))
    } else {
        match flag {
            None => Ok(
                CredentialView {
                    place: fields[p],
                    username: fields[u],
                    password: fields[w],
                    encrypted: false,
                },
            ),
            Some(e) => if e >= fields.len() {
                Err(Error::MissingField(Column::Encrypted, line as usize))
            } else {
                match parse_flag(fields[e]) {
                    Some(b) => Ok(
                        CredentialView {
                            place: fields[p],
                            username: fields[u],
                            password: fields[w],
                            encrypted: b,
                        },
                    ),
                    None => Err(Error::ParsingError),
                }
            },
        }
    }
}

/// The credentials of the data lines `lines[1..=n]`, or the error of the first
/// line that fails.
pub open spec fn parse_rows(
    lines: Seq<Seq<char>>,
    n: int,
    p: int,
    u: int,
    w: int,
    flag: Option<int>,
) -> Result<Seq<CredentialView>, Error>
    decreases n,
{
    if n <= 0 {
        Ok(Seq::empty())
    } else {
        match parse_rows(lines, n - 1, p, u, w, flag) {
            Err(e) => Err(e),
            Ok(prev) => match parse_row(split(lines[n], ','), p, u, w, flag, n + 1) {
                Err(e) => Err(e),
                Ok(c) => Ok(prev.push(c)),
            },
        }
    }
}

/// The header names under which the columns of a dump or a backup are looked for.
pub struct DumpColumns {
    pub place: String,
    pub username: String,
    pub password: String,
    pub encrypted: String,
}

impl DumpColumns {
    /// The names that `export_dump` and `create_backup` write.
    pub fn new() -> (r: Self)
        ensures
            r.place@ == CSV_PLACE@,
            r.username@ == CSV_USERNAME@,
            r.password@ == CSV_PASSWORD@,
            r.encrypted@ == CSV_ENCRYPTED@,
    {
        DumpColumns {
            place: CSV_PLACE.to_owned(),
            username: CSV_USERNAME.to_owned(),
            password: CSV_PASSWORD.to_owned(),
            encrypted: CSV_ENCRYPTED.to_owned(),
        }
    }
}

impl DumpColumns {
    /// Looks for the column that was looked for under `missing` under `given` from now
    /// on: the first of place, username, password and `encrypted` whose name is `missing`
    /// is renamed. Whether one was comes back; otherwise nothing changes.
    pub fn rename(&mut self, missing: &str, given: String) -> (r: bool)
        ensures
            r == (old(self).place@ == missing@ || old(self).username@ == missing@
                || old(self).password@ == missing@ || old(self).encrypted@ == missing@),
            *final(self) == (if old(self).place@ == missing@ {
                DumpColumns { place: given, ..*old(self) }
            } else if old(self).username@ == missing@ {
                DumpColumns { username: given, ..*old(self) }
            } else if old(self).password@ == missing@ {
                DumpColumns { password: given, ..*old(self) }
            } else if old(self).encrypted@ == missing@ {
                DumpColumns { encrypted: given, ..*old(self) }
            } else {
                *old(self)
            }),
    {
        let wanted = missing.to_owned();
        if self.place == wanted {
            self.place = given;
            true
        } else if self.username == wanted {
            self.username = given;
            true
        } else if self.password == wanted {
            self.password = given;
            true
        } else if self.encrypted == wanted {
            self.encrypted = given;
            true
        } else {
            false
        }
    }
}

/// What reading `t` gives, with the columns named by `cols`; the `encrypted`
/// column is read when `with_flag` holds, and every credential is plaintext otherwise.
pub open spec fn parse_text(t: Seq<char>, cols: DumpColumns, with_flag: bool) -> Result<
    Seq<CredentialView>,
    Error,
> {
    let lines = text_lines(t);
    {
        let hs = split(lines[0], ',');
        if hs.len() < (if with_flag {
            4int
        } else {
            3int
        }) {
            Err(Error::BadHeaders)
        } else {
            match first_index(hs, cols.place@) {
                None => Err(Error::NoHeader(cols.place)),
                Some(p) => match first_index(hs, cols.username@) {
                    None => Err(Error::NoHeader(cols.username)),
                    Some(u) => match first_index(hs, cols.password@) {
                        None => Err(Error::NoHeader(cols.password)),
                        Some(w) => if with_flag {
                            match first_index(hs, cols.encrypted@) {
                                None => Err(Error::NoHeader(cols.encrypted)),
                                Some(e) => parse_rows(lines, lines.len() - 1, p, u, w, Some(e)),
                            }
                        } else {
                            parse_rows(lines, lines.len() - 1, p, u, w, None)
                        },
                    },
                },
            }
        }
    }
}

pub(crate) proof fn lemma_first_index_extends(hs: Seq<Seq<char>>, n: int, name: Seq<char>)
    requires
        0 <= n <= hs.len(),
        first_index(hs.subrange(0, n), name) is Some,
    ensures
        first_index(hs, name) == first_index(hs.subrange(0, n), name),
    decreases hs.len(),
{
    if n == hs.len() {
        assert(hs.subrange(0, n) =~= hs);
    } else {
        assert(hs.drop_last().subrange(0, n) =~= hs.subrange(0, n));
        lemma_first_index_extends(hs.drop_last(), n, name);
    }
}

proof fn lemma_parse_rows_err(
    lines: Seq<Seq<char>>,
    n: int,
    m: int,
    p: int,
    u: int,
    w: int,
    flag: Option<int>,
)
    requires
        n <= m,
        parse_rows(lines, n, p, u, w, flag) is Err,
    ensures
        parse_rows(lines, m, p, u, w, flag) == parse_rows(lines, n, p, u, w, flag),
    decreases m - n,
{
    if n < m {
        lemma_parse_rows_err(lines, n, m - 1, p, u, w, flag);
    }
}

proof fn lemma_split_nonempty(s: Seq<char>, d: char)
    ensures
        split(s, d).len() >= 1,
    decreases s.len(),
{
    if s.len() > 0 {
        lemma_split_nonempty(s.drop_last(), d);
    }
}

/// The position of the first header named `name`, if any.
pub fn find_clomun_index(name: &str, headers: &Vec<String>) -> (r: Option<usize>)
    ensures
        int_opt(r) == first_index(string_views(headers@), name@),
{
    let wanted = name.to_owned();
    let ghost hs = string_views(headers@);
    let mut i: usize = 0;
    while i < headers.len()
        invariant
            i <= headers.len(),
            hs == string_views(headers@),
            wanted@ == name@,
            first_index(hs.subrange(0, i as int), name@) is None,
        decreases headers.len() - i,
    {
        assert(hs.subrange(0, i + 1).drop_last() =~= hs.subrange(0, i as int));
        if headers[i] == wanted {
            proof {
                lemma_first_index_extends(hs, i + 1, name@);
            }
            return Some(i);
        }
        i = i + 1;
    }
    assert(hs.subrange(0, headers@.len() as int) =~= hs);
    None
}

/// Reads an `encrypted` field.
fn flag_of(f: &String) -> (r: Option<bool>)
    ensures
        r == parse_flag(f@),
{
    let c = chars_of(f.as_str());
    if c.len() == 1 && c[0] == '1' {
        assert(c@ =~= seq!['1']);
        Some(true)
    } else if c.len() == 1 && c[0] == '0' {
        assert(c@ =~= seq!['0']);
        Some(false)
    } else {
        assert(c@ != seq!['1'] && c@ != seq!['0']) by {
            if c@.len() == 1 {
                assert(c@[0] == c[0]);
            }
        }
        None
    }
}

/// Builds the credential of one data row.
fn parse_fields(
    fields: &Vec<String>,
    p: usize,
    u: usize,
    w: usize,
    flag: Option<usize>,
    line: usize,
) -> (r: Result<Password, Error>)
    ensures
        match r {
            Ok(c) => parse_row(string_views(fields@), p as int, u as int, w as int, int_opt(flag), line as int)
                == Ok::<CredentialView, Error>(c@),
            Err(e) => parse_row(string_views(fields@), p as int, u as int, w as int, int_opt(flag), line as int)
                == Err::<CredentialView, Error>(e),
        },
{
    if p >= fields.len() {
        return Err(Error::MissingField(Column::Place, line));
    }
    if u >= fields.len() {
        return Err(Error::MissingField(Column::Username, line));
    }
    if w >= fields.len() {
        return Err(Error::MissingField(Column::Password, line));
    }
    let encrypted = match flag {
        None => false,
        Some(e) => {
            if e >= fields.len() {
                return Err(Error::MissingField(Column::Encrypted, line));
            }
            match flag_of(&fields[e]) {
                Some(b) => b,
                None => return Err(Error::ParsingError),
            }
        },
    };
    Ok(
        Password {
            place: fields[p].clone(),
            username: fields[u].clone(),
            password: fields[w].clone(),
            encrypted,
        },
    )
}

/// Reads the credentials of a dump (`with_flag`) or of a backup.
fn parse_text_exec(text: &str, cols: &DumpColumns, with_flag: bool) -> (r: Result<Vec<Password>, Error>)
    ensures
        match r {
            Ok(v) => parse_text(text@, *cols, with_flag) == Ok::<Seq<CredentialView>, Error>(views(v@)),
            Err(e) => parse_text(text@, *cols, with_flag) == Err::<Seq<CredentialView>, Error>(e),
        },
{
    let chars = chars_of(text);
    let trimmed = trim_breaks_chars(&chars);
    let lines = split_text(&trimmed, '\n');
    proof {
        lemma_split_nonempty(trim_breaks(text@), '\n');
    }
    let ghost ls = string_views(lines@);
    assert(ls == text_lines(text@));
    let header_chars = chars_of(lines[0].as_str());
    let headers = split_text(&header_chars, ',');
    let least: usize = if with_flag {
        4
    } else {
        3
    };
    if headers.len() < least {
        return Err(Error::BadHeaders);
    }
    let p = match find_clomun_index(cols.place.as_str(), &headers) {
        Some(i) => i,
        None => return Err(Error::NoHeader(cols.place.clone())),
    };
    let u = match find_clomun_index(cols.username.as_str(), &headers) {
        Some(i) => i,
        None => return Err(Error::NoHeader(cols.username.clone())),
    };
    let w = match find_clomun_index(cols.password.as_str(), &headers) {
        Some(i) => i,
        None => return Err(Error::NoHeader(cols.password.clone())),
    };
    let flag = if with_flag {
        match find_clomun_index(cols.encrypted.as_str(), &headers) {
            Some(i) => Some(i),
            None => return Err(Error::NoHeader(cols.encrypted.clone())),
        }
    } else {
        None
    };
    let mut out: Vec<Password> = Vec::new();
    let mut k: usize = 1;
    assert(views(out@) =~= Seq::<CredentialView>::empty());
    assert(parse_text(text@, *cols, with_flag) == parse_rows(
        ls,
        ls.len() - 1,
        p as int,
        u as int,
        w as int,
        int_opt(flag),
    ));
    while k < lines.len()
        invariant
            1 <= k <= lines.len(),
            ls == string_views(lines@),
            parse_text(text@, *cols, with_flag) == parse_rows(
                ls,
                ls.len() - 1,
                p as int,
                u as int,
                w as int,
                int_opt(flag),
            ),
            parse_rows(ls, k - 1, p as int, u as int, w as int, int_opt(flag)) == Ok::<
                Seq<CredentialView>,
                Error,
            >(views(out@)),
        decreases lines.len() - k,
    {
        let row_chars = chars_of(lines[k].as_str());
        let fields = split_text(&row_chars, ',');
        assert(ls[k as int] == lines@[k as int]@);
        match parse_fields(&fields, p, u, w, flag, k + 1) {
            Ok(c) => {
                let ghost before = out@;
                out.push(c);
                assert(views(out@) =~= views(before).push(c@));
            },
            Err(e) => {
                proof {
                    lemma_parse_rows_err(ls, k as int, ls.len() - 1, p as int, u as int, w as int, int_opt(flag));
                }
                return Err(e);
            },
        }
        k = k + 1;
    }
    Ok(out)
}

/// Reads a dump: a header row naming at least four columns, then one row per
/// credential. The place, username, password and `encrypted` columns are found by the
/// names in `columns`; the flag is `1` or `0`.
pub fn parse_dump(text: &str, columns: &DumpColumns) -> (r: Result<Vec<Password>, Error>)
    ensures
        match r {
            Ok(v) => parse_text(text@, *columns, true) == Ok::<Seq<CredentialView>, Error>(views(v@)),
            Err(e) => parse_text(text@, *columns, true) == Err::<Seq<CredentialView>, Error>(e),
        },
{
    parse_text_exec(text, columns, true)
}

/// Reads a backup: a header row naming at least three columns, then one row per
/// credential, all read as plaintext. The place, username and password columns are
/// found by the names in `columns`.
pub fn restore_backup(text: &str, columns: &DumpColumns) -> (r: Result<Vec<Password>, Error>)
    ensures
        match r {
            Ok(v) => parse_text(text@, *columns, false) == Ok::<Seq<CredentialView>, Error>(views(v@)),
            Err(e) => parse_text(text@, *columns, false) == Err::<Seq<CredentialView>, Error>(e),
        },
{
    parse_text_exec(text, columns, false)
}

/// Writes a backup of `passwords`: the header `place,username,password`, then one row
/// per credential with its password as it is held.
pub fn create_backup(passwords: &Vec<Password>) -> (r: String)
    ensures
        r@ == backup_text(views(passwords@)),
{
    let mut r = String::new();
    append_str(&mut r, CSV_PLACE);
    append_char(&mut r, ',');
    append_str(&mut r, CSV_USERNAME);
    append_char(&mut r, ',');
    append_str(&mut r, CSV_PASSWORD);
    append_char(&mut r, '\n');
    let ghost cs = views(passwords@);
    let mut i: usize = 0;
    assert(cs.subrange(0, 0) =~= Seq::<CredentialView>::empty());
    while i < passwords.len()
        invariant
            i <= passwords.len(),
            cs == views(passwords@),
            r@ == backup_text(cs.subrange(0, i as int)),
        decreases passwords.len() - i,
    {
        let row = passwords[i].to_csv_row();
        append_str(&mut r, row.as_str());
        assert(cs.subrange(0, i + 1).drop_last() =~= cs.subrange(0, i as int));
        assert(r@ =~= backup_text(cs.subrange(0, i + 1)));
        i = i + 1;
    }
    assert(cs.subrange(0, cs.len() as int) =~= cs);
    r
}

/// Writes a dump of `passwords`: the header `place,username,password,encrypted`, then
/// one row per credential with its password as it is held and its flag as `1` or `0`.
pub fn export_dump(passwords: &Vec<Password>) -> (r: String)
    ensures
        r@ == dump_text(views(passwords@)),
{
    let mut r = String::new();
    append_str(&mut r, CSV_PLACE);
    append_char(&mut r, ',');
    append_str(&mut r, CSV_USERNAME);
    append_char(&mut r, ',');
    append_str(&mut r, CSV_PASSWORD);
    append_char(&mut r, ',');
    append_str(&mut r, CSV_ENCRYPTED);
    append_char(&mut r, '\n');
    let ghost cs = views(passwords@);
    let mut i: usize = 0;
    assert(cs.subrange(0, 0) =~= Seq::<CredentialView>::empty());
    while i < passwords.len()
        invariant
            i <= passwords.len(),
            cs == views(passwords@),
            r@ == dump_text(cs.subrange(0, i as int)),
        decreases passwords.len() - i,
    {
        let row = passwords[i].dump();
        append_str(&mut r, row.as_str());
        append_char(&mut r, '\n');
        assert(cs.subrange(0, i + 1).drop_last() =~= cs.subrange(0, i as int));
        assert(r@ =~= dump_text(cs.subrange(0, i + 1)));
        i = i + 1;
    }
    assert(cs.subrange(0, cs.len() as int) =~= cs);
    r
}

/// The decimal digit `d`.
pub open spec fn digit_char(d: nat) -> char {
    seq!['0', '1', '2', '3', '4', '5', '6', '7', '8', '9'][d as int]
}

/// The decimal numeral of `n`.
pub open spec fn decimal(n: nat) -> Seq<char>
    decreases n,
{
    if n < 10 {
        seq![digit_char(n)]
    } else {
        decimal(n / 10).push(digit_char(n % 10))
    }
}

fn digit(d: usize) -> (c: char)
    requires
        d < 10,
    ensures
        c == digit_char(d as nat),
{
    let digits = ['0', '1', '2', '3', '4', '5', '6', '7', '8', '9'];
    assert(digits@ == seq!['0', '1', '2', '3', '4', '5', '6', '7', '8', '9']);
    digits[d]
}

/// Appends the decimal numeral of `n` to `s`.
fn append_decimal(s: &mut String, n: usize)
    ensures
        final(s)@ == old(s)@ + decimal(n as nat),
    decreases n,
{
    if n >= 10 {
        append_decimal(s, n / 10);
    }
    append_char(s, digit(n % 10));
    assert(final(s)@ =~= old(s)@ + decimal(n as nat));
}

/// A listing of `cs`: for each credential a line break, its position from 0, a colon
/// and a line break, its description, and a line break.
pub open spec fn listing(cs: Seq<CredentialView>) -> Seq<char>
    decreases cs.len(),
{
    if cs.len() == 0 {
        Seq::empty()
    } else {
        listing(cs.drop_last()) + seq!['\n'] + decimal((cs.len() - 1) as nat) + seq![':', '\n']
            + description(cs.last()) + seq!['\n']
    }
}

/// Numbers and describes each credential, from 0; encrypted passwords are not shown.
pub fn display_passwords(passwords: &Vec<Password>) -> (r: String)
    ensures
        r@ == listing(views(passwords@)),
{
    let mut r = String::new();
    let ghost cs = views(passwords@);
    let mut i: usize = 0;
    assert(cs.subrange(0, 0) =~= Seq::<CredentialView>::empty());
    while i < passwords.len()
        invariant
            i <= passwords.len(),
            cs == views(passwords@),
            r@ == listing(cs.subrange(0, i as int)),
        decreases passwords.len() - i,
    {
        append_char(&mut r, '\n');
        append_decimal(&mut r, i);
        append_char(&mut r, ':');
        append_char(&mut r, '\n');
        let shown = passwords[i].describe();
        append_str(&mut r, shown.as_str());
        append_char(&mut r, '\n');
        assert(cs.subrange(0, i + 1).drop_last() =~= cs.subrange(0, i as int));
        assert(r@ =~= listing(cs.subrange(0, i + 1)));
        i = i + 1;
    }
    assert(cs.subrange(0, cs.len() as int) =~= cs);
    r
}

proof fn lemma_split_extend(x: Seq<char>, y: Seq<char>, d: char)
    requires
        free_of(y, d),
    ensures
        split(x + y, d) == split(x, d).update(split(x, d).len() - 1, split(x, d).last() + y),
        split(x + y, d).len() == split(x, d).len(),
    decreases y.len(),
{
    lemma_split_nonempty(x, d);
    if y.len() == 0 {
        assert(x + y =~= x);
        assert(split(x, d).last() + y =~= split(x, d).last());
        assert(split(x, d).update(split(x, d).len() - 1, split(x, d).last()) =~= split(x, d));
    } else {
        let y2 = y.drop_last();
        lemma_split_extend(x, y2, d);
        assert((x + y).drop_last() =~= x + y2);
        assert((x + y).last() == y.last());
        assert(y[y.len() - 1] != d);
        let px = split(x, d);
        let pxy2 = split(x + y2, d);
        lemma_split_nonempty(x + y2, d);
        assert(pxy2.last() == px.last() + y2);
        assert((px.last() + y2).push(y.last()) =~= px.last() + y);
        assert(split(x + y, d) =~= px.update(px.len() - 1, px.last() + y));
    }
}

proof fn lemma_split_cut(x: Seq<char>, d: char)
    ensures
        split(x.push(d), d) == split(x, d).push(Seq::<char>::empty()),
{
    assert(x.push(d).drop_last() =~= x);
}

proof fn lemma_split_one(f: Seq<char>, d: char)
    requires
        free_of(f, d),
    ensures
        split(f, d) == seq![f],
{
    lemma_split_extend(Seq::<char>::empty(), f, d);
    assert(Seq::<char>::empty() + f =~= f);
    assert(Seq::<char>::empty() + f =~= f);
    assert(split(Seq::<char>::empty(), d) =~= seq![Seq::<char>::empty()]);
    assert(seq![Seq::<char>::empty()].update(0, Seq::<char>::empty() + f) =~= seq![f]);
}

/// Splitting `x`, a delimiter and a piece `f` free of it gives the pieces of `x` and `f`.
proof fn lemma_split_next(x: Seq<char>, f: Seq<char>, d: char)
    requires
        free_of(f, d),
    ensures
        split(x.push(d) + f, d) == split(x, d).push(f),
{
    lemma_split_cut(x, d);
    lemma_split_extend(x.push(d), f, d);
    assert(Seq::<char>::empty() + f =~= f);
    assert(split(x, d).push(Seq::<char>::empty()).update(split(x, d).len() as int, f) =~= split(x, d).push(f));
}

/// A credential's fields hold neither the field delimiter nor a line break.
pub open spec fn dump_safe(c: CredentialView) -> bool {
    &&& free_of(c.place, ',') && free_of(c.place, '\n')
    &&& free_of(c.username, ',') && free_of(c.username, '\n')
    &&& free_of(c.password, ',') && free_of(c.password, '\n')
}

/// Base64 text, such as a ciphertext, holds neither the field delimiter nor a line break.
pub proof fn lemma_base64_is_safe(t: Seq<char>)
    requires
        forall|i: int| 0 <= i < t.len() ==> is_base64_char(#[trigger] t[i]),
    ensures
        free_of(t, ','),
        free_of(t, '\n'),
{
}

proof fn lemma_row_fields(c: CredentialView)
    requires
        dump_safe(c),
    ensures
        split(dump_row(c), ',') == seq![c.place, c.username, c.password, seq![crate::credential::flag_char(c.encrypted)]],
        free_of(dump_row(c), '\n'),
{
    let f = seq![crate::credential::flag_char(c.encrypted)];
    lemma_split_one(c.place, ',');
    let a = c.place;
    lemma_split_next(a, c.username, ',');
    let b = a.push(',') + c.username;
    lemma_split_next(b, c.password, ',');
    let e = b.push(',') + c.password;
    assert(free_of(f, ','));
    lemma_split_next(e, f, ',');
    assert(dump_row(c) =~= e.push(',') + f);
    assert(split(dump_row(c), ',') =~= seq![c.place, c.username, c.password, f]);
    assert(dump_row(c) =~= c.place + seq![','] + c.username + seq![','] + c.password + seq![','] + f);
}

proof fn lemma_header_fields()
    ensures
        split(dump_header(), ',') == seq![CSV_PLACE@, CSV_USERNAME@, CSV_PASSWORD@, CSV_ENCRYPTED@],
        free_of(dump_header(), '\n'),
{
    reveal_strlit("place");
    reveal_strlit("username");
    reveal_strlit("password");
    reveal_strlit("encrypted");
    let a = CSV_PLACE@;
    lemma_split_one(a, ',');
    lemma_split_next(a, CSV_USERNAME@, ',');
    let b = a.push(',') + CSV_USERNAME@;
    lemma_split_next(b, CSV_PASSWORD@, ',');
    let e = b.push(',') + CSV_PASSWORD@;
    lemma_split_next(e, CSV_ENCRYPTED@, ',');
    assert(dump_header() =~= e.push(',') + CSV_ENCRYPTED@);
}

proof fn lemma_dump_lines(cs: Seq<CredentialView>)
    requires
        forall|i: int| 0 <= i < cs.len() ==> dump_safe(#[trigger] cs[i]),
    ensures
        split(dump_text(cs), '\n') == seq![dump_header()] + cs.map_values(|c: CredentialView| dump_row(c))
            + seq![Seq::<char>::empty()],
    decreases cs.len(),
{
    let rows = cs.map_values(|c: CredentialView| dump_row(c));
    lemma_header_fields();
    if cs.len() == 0 {
        lemma_split_one(dump_header(), '\n');
        lemma_split_cut(dump_header(), '\n');
        assert(dump_text(cs) =~= dump_header().push('\n'));
        assert(rows =~= Seq::<Seq<char>>::empty());
        assert(seq![dump_header()] + rows + seq![Seq::<char>::empty()] =~= seq![dump_header()].push(
            Seq::<char>::empty(),
        ));
    } else {
        let prev = cs.drop_last();
        let c = cs.last();
        assert(forall|i: int| 0 <= i < prev.len() ==> prev[i] == cs[i]);
        lemma_dump_lines(prev);
        lemma_row_fields(c);
        let t = dump_text(prev);
        assert(dump_text(cs) =~= (t + dump_row(c)).push('\n'));
        lemma_split_extend(t, dump_row(c), '\n');
        lemma_split_cut(t + dump_row(c), '\n');
        let prows = prev.map_values(|c: CredentialView| dump_row(c));
        assert(rows =~= prows.push(dump_row(c)));
        assert(split(t, '\n') =~= seq![dump_header()] + prows + seq![Seq::<char>::empty()]);
        assert(split(t + dump_row(c), '\n') =~= seq![dump_header()] + rows);
        assert(split(dump_text(cs), '\n') =~= seq![dump_header()] + rows + seq![Seq::<char>::empty()]);
    }
}

proof fn lemma_dump_rows_parse(lines: Seq<Seq<char>>, cs: Seq<CredentialView>, n: int)
    requires
        0 <= n <= cs.len(),
        lines.len() == cs.len() + 1,
        forall|i: int| 0 <= i < cs.len() ==> dump_safe(#[trigger] cs[i]),
        forall|i: int| 0 <= i < cs.len() ==> #[trigger] lines[i + 1] == dump_row(cs[i]),
    ensures
        parse_rows(lines, n, 0, 1, 2, Some(3)) == Ok::<Seq<CredentialView>, Error>(cs.subrange(0, n)),
    decreases n,
{
    if n == 0 {
        assert(cs.subrange(0, 0) =~= Seq::<CredentialView>::empty());
    } else {
        lemma_dump_rows_parse(lines, cs, n - 1);
        let c = cs[n - 1];
        assert(lines[(n - 1) + 1] == dump_row(c));
        lemma_row_fields(c);
        assert(cs.subrange(0, n) =~= cs.subrange(0, n - 1).push(c));
    }
}

proof fn lemma_dump_text_trim(cs: Seq<CredentialView>)
    ensures
        dump_text(cs).len() > 0,
        dump_text(cs).last() == '\n',
        trim_breaks(dump_text(cs)) == dump_text(cs).drop_last(),
{
    reveal_strlit("place");
    reveal_strlit("encrypted");
    let t = dump_text(cs);
    let h = dump_header();
    assert(h[0] == CSV_PLACE@[0]);
    assert(t[0] == h[0]);
    assert(t[0] != '\n');
    assert(trim_breaks_start(t) == t);
    let body = t.drop_last();
    if cs.len() == 0 {
        assert(t =~= h.push('\n'));
        assert(body =~= h);
        assert(h.last() == CSV_ENCRYPTED@[8]);
    } else {
        let prev = cs.drop_last();
        let c = cs.last();
        assert(t =~= (dump_text(prev) + dump_row(c)).push('\n'));
        assert(body =~= dump_text(prev) + dump_row(c));
        assert(body.last() == crate::credential::flag_char(c.encrypted));
    }
    assert(body.len() > 0);
    assert(body.last() != '\n');
    assert(t.drop_last() == body);
    assert(trim_breaks_end(body) == body);
    assert(trim_breaks_end(t) == trim_breaks_end(body));
}

/// A dump read back with the column names it was written with gives the same
/// credentials, field for field and in order, when no field holds a comma or a line
/// break.
pub proof fn lemma_dump_round_trip(cs: Seq<CredentialView>, cols: DumpColumns)
    requires
        forall|i: int| 0 <= i < cs.len() ==> dump_safe(#[trigger] cs[i]),
        cols.place@ == CSV_PLACE@,
        cols.username@ == CSV_USERNAME@,
        cols.password@ == CSV_PASSWORD@,
        cols.encrypted@ == CSV_ENCRYPTED@,
    ensures
        parse_text(dump_text(cs), cols, true) == Ok::<Seq<CredentialView>, Error>(cs),
{
    lemma_dump_lines(cs);
    lemma_dump_text_trim(cs);
    lemma_split_cut(dump_text(cs).drop_last(), '\n');
    assert(dump_text(cs).drop_last().push('\n') =~= dump_text(cs));
    lemma_header_fields();
    reveal_strlit("place");
    reveal_strlit("username");
    reveal_strlit("password");
    reveal_strlit("encrypted");
    let rows = cs.map_values(|c: CredentialView| dump_row(c));
    let all = split(dump_text(cs), '\n');
    let lines = text_lines(dump_text(cs));
    assert(all.drop_last() =~= seq![dump_header()] + rows);
    assert(lines =~= seq![dump_header()] + rows);
    let hs = split(lines[0], ',');
    assert(hs == seq![CSV_PLACE@, CSV_USERNAME@, CSV_PASSWORD@, CSV_ENCRYPTED@]);
    assert(CSV_PLACE@ != CSV_USERNAME@);
    assert(CSV_PLACE@ != CSV_PASSWORD@);
    assert(CSV_PLACE@ != CSV_ENCRYPTED@);
    assert(CSV_USERNAME@ != CSV_ENCRYPTED@);
    assert(CSV_PASSWORD@ != CSV_ENCRYPTED@);
    assert(CSV_USERNAME@[0] != CSV_PASSWORD@[0]);
    reveal_with_fuel(first_index, 5);
    assert(hs.drop_last() =~= seq![CSV_PLACE@, CSV_USERNAME@, CSV_PASSWORD@]);
    assert(hs.drop_last().drop_last() =~= seq![CSV_PLACE@, CSV_USERNAME@]);
    assert(hs.drop_last().drop_last().drop_last() =~= seq![CSV_PLACE@]);
    assert(seq![CSV_PLACE@].drop_last() =~= Seq::<Seq<char>>::empty());
    assert(first_index(hs, cols.place@) == Some(0int));
    assert(first_index(hs, cols.username@) == Some(1int));
    assert(first_index(hs, cols.password@) == Some(2int));
    assert(first_index(hs, cols.encrypted@) == Some(3int));
    assert forall|i: int| 0 <= i < cs.len() implies #[trigger] lines[i + 1] == dump_row(cs[i]) by {}
    lemma_dump_rows_parse(lines, cs, cs.len() as int);
    assert(cs.subrange(0, cs.len() as int) =~= cs);
}

} // verus!
