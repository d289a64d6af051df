//! Address tables: the entries a user keeps for a game, and the names of
//! the files they are stored in.

use vstd::prelude::*;
use crate::encoding::chars_of;
use crate::text::{char_is_alphanumeric, is_alphanumeric, is_ascii_alnum, is_control, string_from_chars};
use crate::types::TableEntry;

verus! {

/// The address table kept for one game.
pub struct AddressTable {
    pub game_name: String,
    pub entries: Vec<TableEntry>,
}

impl AddressTable {
    /// An empty table for `game_name`.
    pub fn new(game_name: &str) -> (r: AddressTable)
        ensures
            r.game_name@ == game_name@,
            r.entries@.len() == 0,
    {
        AddressTable { game_name: game_name.to_owned(), entries: Vec::new() }
    }

    /// Append an entry at the end of the table.
    pub fn add(&mut self, entry: TableEntry)
        ensures
            final(self).entries@ == old(self).entries@.push(entry),
            final(self).game_name == old(self).game_name,
    {
        self.entries.push(entry);
    }

    /// Take out the entry at `index`, the later ones moving up; `None` when
    /// there is no such entry, and the table is then unchanged.
    pub fn remove(&mut self, index: usize) -> (r: Option<TableEntry>)
        ensures
            final(self).game_name == old(self).game_name,
            index < old(self).entries@.len() ==> {
                &&& r == Some(old(self).entries@[index as int])
                &&& final(self).entries@ == old(self).entries@.remove(index as int)
            },
            index >= old(self).entries@.len() ==> {
                &&& r is None
                &&& final(self).entries@ == old(self).entries@
            },
    {
        if index < self.entries.len() {
            Some(self.entries.remove(index))
        } else {
            None
        }
    }
}

/// Whether a character stays as it is in a file name: an alphanumeric
/// character (among ASCII characters, a letter or digit; never a control
/// character), `-` or `_`.
pub open spec fn keeps_char(c: char) -> bool {
    if (c as u32) < 128 {
        is_ascii_alnum(c) || c == '-' || c == '_'
    } else if is_control(c) {
        false
    } else {
        is_alphanumeric(c)
    }
}

/// A character as it stands in a file name: letters, digits, `-` and `_`
/// stay, anything else becomes `_`.
pub open spec fn sanitize_char(c: char) -> char {
    if keeps_char(c) {
        c
    } else {
        '_'
    }
}

/// A game name made safe for use as a file name, character by character.
pub open spec fn sanitized(s: Seq<char>) -> Seq<char> {
    s.map_values(|c: char| sanitize_char(c))
}

/// Sanitize a game name for use as a filename.
pub fn sanitize_name(name: &str) -> (r: String)
    ensures
        r@ == sanitized(name@),
        !r@.contains('.'),
        r@.len() == name@.len(),
        forall|i: int|
            0 <= i < name@.len() ==> #[trigger] r@[i] == (if is_alphanumeric(name@[i]) || name@[i] == '-'
                || name@[i] == '_' {
                name@[i]
            } else {
                '_'
            }),
{
    let cs = chars_of(name);
    let mut out: Vec<char> = Vec::new();
    let mut i: usize = 0;
    while i < cs.len()
        invariant
            i <= cs@.len(),
            cs@ == name@,
            out@ == sanitized(cs@.take(i as int)),
            forall|j: int| 0 <= j < out@.len() ==> out@[j] != '.',
            forall|j: int|
                0 <= j < i ==> #[trigger] out@[j] == (if is_alphanumeric(cs@[j]) || cs@[j] == '-' || cs@[j] == '_' {
                    cs@[j]
                } else {
                    '_'
                }),
        decreases cs@.len() - i,
    {
        let c = cs[i];
        let keep = char_is_alphanumeric(c) || c == '-' || c == '_';
        assert(keep == keeps_char(c));
        out.push(if keep { c } else { '_' });
        i = i + 1;
        assert(out@ =~= sanitized(cs@.take(i as int)));
    }
    assert(cs@.take(cs@.len() as int) =~= cs@);
    string_from_chars(out.as_slice())
}

/// The extension of table files.
pub open spec fn json_suffix() -> Seq<char> {
    seq!['.', 'j', 's', 'o', 'n']
}

/// The name of the file that holds the table of `game_name`.
pub open spec fn table_file(game_name: Seq<char>) -> Seq<char> {
    sanitized(game_name) + json_suffix()
}

/// The name of the file that holds the table of `game_name`: the sanitized
/// name with `.json` appended.
pub fn table_file_name(game_name: &str) -> (r: String)
    ensures
        r@ == table_file(game_name@),
        table_name_of(r@) == Some(sanitized(game_name@)),
{
    let s = sanitize_name(game_name);
    proof {
        lemma_table_file_names_table(game_name@);
    }
    let mut cs = chars_of(s.as_str());
    cs.push('.');
    cs.push('j');
    cs.push('s');
    cs.push('o');
    cs.push('n');
    assert(cs@ =~= table_file(game_name@));
    string_from_chars(cs.as_slice())
}

/// Whether `s` ends with `.json`.
pub open spec fn ends_with_json(s: Seq<char>) -> bool {
    s.len() >= 5 && s.subrange(s.len() - 5, s.len() as int) == json_suffix()
}

/// `s` with every trailing `.json` removed.
pub open spec fn trim_json(s: Seq<char>) -> Seq<char>
    decreases s.len(),
{
    if ends_with_json(s) {
        trim_json(s.subrange(0, s.len() - 5))
    } else {
        s
    }
}

/// The table name that a file name stands for: `None` unless it ends with
/// `.json`, else the name with every trailing `.json` removed.
pub open spec fn table_name_of(file_name: Seq<char>) -> Option<Seq<char>> {
    if ends_with_json(file_name) {
        Some(trim_json(file_name))
    } else {
        None
    }
}

fn ends_with_json_exec(cs: &Vec<char>, len: usize) -> (r: bool)
    requires
        len <= cs@.len(),
    ensures
        r == ends_with_json(cs@.take(len as int)),
{
    if len < 5 {
        return false;
    }
    let r = cs[len - 5] == '.' && cs[len - 4] == 'j' && cs[len - 3] == 's' && cs[len - 2] == 'o'
        && cs[len - 1] == 'n';
    let ghost t = cs@.take(len as int);
    assert(r == (t.subrange(t.len() - 5, t.len() as int) =~= json_suffix()));
    r
}

/// The table name that a file in the tables directory stands for.
pub fn table_name_from_file(file_name: &str) -> (r: Option<String>)
    ensures
        r matches Some(s) ==> table_name_of(file_name@) == Some(s@),
        r is None ==> table_name_of(file_name@) is None,
{
    let cs = chars_of(file_name);
    assert(cs@.take(cs@.len() as int) =~= cs@);
    if !ends_with_json_exec(&cs, cs.len()) {
        return None;
    }
    let mut len: usize = cs.len();
    while ends_with_json_exec(&cs, len)
        invariant
            len <= cs@.len(),
            cs@ == file_name@,
            trim_json(cs@.take(len as int)) == trim_json(file_name@),
        decreases len,
    {
        let ghost t = cs@.take(len as int);
        assert(t.subrange(0, t.len() - 5) =~= cs@.take(len - 5));
        len = len - 5;
    }
    let mut out: Vec<char> = Vec::new();
    let mut i: usize = 0;
    while i < len
        invariant
            i <= len <= cs@.len(),
            out@ == cs@.take(i as int),
        decreases len - i,
    {
        out.push(cs[i]);
        i = i + 1;
        assert(out@ =~= cs@.take(i as int));
    }
    Some(string_from_chars(out.as_slice()))
}

/// The names of the saved tables among the file names of the tables
/// directory, in the order given: each `.json` file stands for the table
/// named by its name without the extension; other files are skipped.
pub fn saved_table_names(file_names: &Vec<String>) -> (r: Vec<String>)
    ensures
        r@.map_values(|s: String| s@) == file_names@.map_values(|s: String| s@).filter(
            |f: Seq<char>| ends_with_json(f),
        ).map_values(|f: Seq<char>| trim_json(f)),
{
    let ghost names = file_names@.map_values(|s: String| s@);
    let mut r: Vec<String> = Vec::new();
    let mut i: usize = 0;
    while i < file_names.len()
        invariant
            i <= file_names@.len(),
            names == file_names@.map_values(|s: String| s@),
            r@.map_values(|s: String| s@) == names.take(i as int).filter(|f: Seq<char>| ends_with_json(f)).map_values(
                |f: Seq<char>| trim_json(f),
            ),
        decreases file_names@.len() - i,
    {
        let ghost old_r = r@.map_values(|s: String| s@);
        let found = table_name_from_file(file_names[i].as_str());
        assert(names.take(i + 1).drop_last() =~= names.take(i as int));
        reveal_with_fuel(Seq::filter, 1);
        match found {
            Some(s) => {
                r.push(s);
                assert(r@.map_values(|s: String| s@) =~= old_r.push(trim_json(names[i as int])));
            },
            None => {
                assert(r@.map_values(|s: String| s@) =~= old_r);
            },
        }
        i = i + 1;
        assert(names.take(i as int).filter(|f: Seq<char>| ends_with_json(f)).map_values(|f: Seq<char>| trim_json(f))
            =~= r@.map_values(|s: String| s@));
    }
    assert(names.take(names.len() as int) =~= names);
    r
}

} // verus!

verus! {

/// Sanitizing a name keeps its length, and sanitizing it again changes
/// nothing.
pub proof fn lemma_sanitize_idempotent(s: Seq<char>)
    ensures
        sanitized(s).len() == s.len(),
        sanitized(sanitized(s)) == sanitized(s),
{
    assert(sanitized(sanitized(s)) =~= sanitized(s));
}

/// What the standard library documents of `char::is_alphanumeric` on `c`:
/// among ASCII characters exactly the letters and digits are alphanumeric,
/// and no control character is.
pub open spec fn alphanumeric_as_documented(c: char) -> bool {
    &&& (c as u32) < 128 ==> (is_alphanumeric(c) == is_ascii_alnum(c))
    &&& is_control(c) ==> !is_alphanumeric(c)
}

/// A character stays in a file name exactly when it is alphanumeric, `-`
/// or `_`, whatever script it belongs to: letters of any alphabet stay.
pub proof fn lemma_keeps_alphanumeric(c: char)
    requires
        alphanumeric_as_documented(c),
    ensures
        keeps_char(c) == (is_alphanumeric(c) || c == '-' || c == '_'),
        sanitize_char(c) == (if is_alphanumeric(c) || c == '-' || c == '_' {
            c
        } else {
            '_'
        }),
{
}

/// A sanitized name is a single plain file name: it holds no path
/// separator (`/` or `\`), no `.`, no `:` and no control character, so the
/// table file named after it lies directly in the tables directory.
pub proof fn lemma_sanitized_is_plain_name(s: Seq<char>)
    ensures
        forall|i: int|
            0 <= i < sanitized(s).len() ==> {
                let c = #[trigger] sanitized(s)[i];
                &&& c != '/'
                &&& c != '\\'
                &&& c != '.'
                &&& c != ':'
                &&& !is_control(c)
            },
{
}

/// The file a table is saved under names that table: it ends with `.json`,
/// and without the suffix it is the sanitized game name.
pub proof fn lemma_table_file_names_table(game_name: Seq<char>)
    ensures
        table_name_of(table_file(game_name)) == Some(sanitized(game_name)),
{
    let t = table_file(game_name);
    let san = sanitized(game_name);
    lemma_sanitized_is_plain_name(game_name);
    assert(t.subrange(t.len() - 5, t.len() as int) =~= json_suffix());
    assert(t.subrange(0, t.len() - 5) =~= san);
    if ends_with_json(san) {
        assert(san.subrange(san.len() - 5, san.len() as int)[0] == '.');
        assert(san[san.len() - 5] == '.');
    }
    assert(ends_with_json(t));
    assert(trim_json(t) == trim_json(san));
    assert(trim_json(san) == san);
}

/// After a table is saved, listing the tables directory names it: when the
/// directory's file names include the file of `game_name`'s table, the
/// saved table names (as `saved_table_names` lists them) include the
/// sanitized game name.
pub proof fn lemma_saved_table_listed(file_names: Seq<Seq<char>>, game_name: Seq<char>)
    requires
        file_names.contains(table_file(game_name)),
    ensures
        file_names.filter(|f: Seq<char>| ends_with_json(f)).map_values(|f: Seq<char>| trim_json(f)).contains(
            sanitized(game_name),
        ),
{
    let t = table_file(game_name);
    lemma_table_file_names_table(game_name);
    let pred = |f: Seq<char>| ends_with_json(f);
    let i = choose|i: int| 0 <= i < file_names.len() && file_names[i] == t;
    file_names.lemma_filter_contains(pred, i);
    let filtered = file_names.filter(pred);
    let j = choose|j: int| 0 <= j < filtered.len() && filtered[j] == t;
    let listed = filtered.map_values(|f: Seq<char>| trim_json(f));
    assert(listed[j] == sanitized(game_name));
}

/// Adding an entry and then removing the last one gives the entry back and
/// the table as it was.
pub proof fn lemma_add_then_remove_last(entries: Seq<TableEntry>, entry: TableEntry)
    ensures
        entries.push(entry)[entries.len() as int] == entry,
        entries.push(entry).remove(entries.len() as int) == entries,
{
    assert(entries.push(entry).remove(entries.len() as int) =~= entries);
}

} // verus!
