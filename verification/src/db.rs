//! The database of a run: its files, and how numbers and lists are kept in it.
use vstd::prelude::*;

use crate::config;
use crate::json;
use crate::text;

verus! {

/// The path with a suffix.
pub fn sidecar(path: &str, suffix: &str) -> (res: String)
    ensures
        res@ == path@ + suffix@,
{
    let mut out = String::new();
    out.append(path);
    out.append(suffix);
    assert(out@ =~= path@ + suffix@);
    out
}

/// The files of a database: the database itself, its write-ahead log, and the
/// index of that.
pub fn db_files(path: &str) -> (res: [String; 3])
    ensures
        res@[0]@ == path@,
        res@[1]@ == path@ + "-wal"@,
        res@[2]@ == path@ + "-shm"@,
{
    let whole = sidecar(path, "");
    proof {
        reveal_strlit("");
        assert(whole@ =~= path@);
    }
    [whole, sidecar(path, "-wal"), sidecar(path, "-shm")]
}

/// The name of the file that a path leads to: its last component, where empty
/// ones and `.` do not count. There is none if that is `..`, or if there are no
/// components.
pub open spec fn file_name(path: Seq<char>) -> Option<Seq<char>>
    decreases path.len(),
{
    let cut = text::after_last(path, '/', path.len() as int);
    let name = path.skip(cut);
    if name.len() == 0 || name == "."@ {
        if 0 < cut <= path.len() {
            file_name(path.take(cut - 1))
        } else {
            None
        }
    } else if name == ".."@ {
        None
    } else {
        Some(name)
    }
}

/// The file name has the extension `db`: that is what follows its last dot, and
/// something comes before it.
pub open spec fn name_has_db(name: Seq<char>) -> bool {
    let dot = text::after_last(name, '.', name.len() as int);
    dot >= 2 && name.skip(dot) == "db"@
}

/// The path leads to a file whose name has the extension `db`.
pub open spec fn has_db_extension(path: Seq<char>) -> bool {
    match file_name(path) {
        Some(name) => name_has_db(name),
        None => false,
    }
}

/// A path that is to lead to a database has another extension.
#[derive(Debug, Clone)]
pub struct NotDbPath {
    pub path: String,
}

impl NotDbPath {
    /// The message of the error.
    pub fn message(&self) -> (res: String)
        ensures
            res@ == "database path must end in .db, got "@ + self.path@,
    {
        let mut out = String::new();
        out.append("database path must end in .db, got ");
        out.append(self.path.as_str());
        out
    }
}

/// Checks that a path leads to a file whose name has the extension `db`.
pub fn require_db_path(path: &str) -> (res: Result<(), NotDbPath>)
    ensures
        match res {
            Ok(_) => has_db_extension(path@),
            Err(e) => !has_db_extension(path@) && e.path@ == path@,
        },
{
    let chars = text::chars_of(path);
    let whole = chars.as_slice();
    let mut end: usize = whole.len();
    assert(whole@.take(end as int) =~= path@);
    loop
        invariant
            end <= whole@.len(),
            whole@ == path@,
            file_name(path@) == file_name(whole@.take(end as int)),
        decreases end,
    {
        let s = text::part(whole, 0, end);
        assert(s@ =~= whole@.take(end as int));
        let cut: usize = text::find_after_last(s, '/');
        let name = text::part(s, cut, end);
        assert(name@ =~= s@.skip(cut as int));
        if name.len() == 0 || text::spells(name, ".") {
            if cut == 0 {
                return Err(NotDbPath { path: text::string_of(whole) });
            }
            assert(s@.take(cut - 1) =~= whole@.take(cut - 1));
            end = cut - 1;
        } else {
            if !text::spells(name, "..") {
                let n: usize = name.len();
                let dot: usize = text::find_after_last(name, '.');
                if dot >= 2 {
                    let ext = text::part(name, dot, n);
                    assert(ext@ =~= name@.skip(dot as int));
                    if text::spells(ext, "db") {
                        return Ok(());
                    }
                }
            }
            return Err(NotDbPath { path: text::string_of(whole) });
        }
    }
}

/// The database file of a tag that can name one has the extension `db`, unless
/// the tag is nothing but `.db` or `.DB`.
pub proof fn law_db_name_has_extension(tag: Seq<char>)
    requires
        config::plain_name(tag),
    ensures
        has_db_extension(config::db_name(tag)) <==> tag != ".db"@ && tag != ".DB"@,
{
    reveal_strlit(".db");
    reveal_strlit(".DB");
    reveal_strlit("db");
    reveal_strlit(".");
    reveal_strlit("..");
    let name = config::db_name(tag);
    let n = name.len() as int;
    let before = config::stem(tag).len() as int;
    assert(name[before] == '.');
    assert(name[before + 1] == 'd');
    assert(name[before + 2] == 'b');
    text::lemma_after_last(name, '/', n);
    let cut = text::after_last(name, '/', n);
    if cut > 0 {
        assert(name[cut - 1] == '/');
        assert(cut - 1 < before);
        assert(tag[cut - 1] == '/');
        assert(tag.contains('/'));
    }
    assert(name.skip(0) =~= name);
    assert(file_name(name) == Some(name));
    text::lemma_after_last(name, '.', n);
    let dot = text::after_last(name, '.', n);
    assert(dot == before + 1);
    assert(name.skip(dot) =~= "db"@);
    if before == 0 {
        assert(tag.len() == 3);
        assert(tag.skip(0) =~= tag);
    } else if tag == ".db"@ || tag == ".DB"@ {
        assert(tag.skip(0) =~= tag);
    }
}

/// A count as the database keeps it: the same 64 bits, with a sign.
pub open spec fn as_kept(n: u64) -> i64 {
    if n <= i64::MAX {
        n as i64
    } else {
        (n - 0x1_0000_0000_0000_0000) as i64
    }
}

/// A kept number as a count again.
pub open spec fn as_count(v: i64) -> u64 {
    if v >= 0 {
        v as u64
    } else {
        (v + 0x1_0000_0000_0000_0000) as u64
    }
}

/// A count as the database keeps it.
pub fn keep(n: u64) -> (res: i64)
    ensures
        res == as_kept(n),
{
    if n <= i64::MAX as u64 {
        n as i64
    } else {
        (n as i128 - 0x1_0000_0000_0000_0000) as i64
    }
}

/// A kept number as a count again.
pub fn count(v: i64) -> (res: u64)
    ensures
        res == as_count(v),
{
    if v >= 0 {
        v as u64
    } else {
        (v as i128 + 0x1_0000_0000_0000_0000) as u64
    }
}

/// A count that was kept is the same count again.
pub proof fn law_counts_survive(n: u64)
    ensures
        as_count(as_kept(n)) == n,
{
}

/// The host list as the database keeps it. What is read from it is the same list.
pub fn keep_hosts(hosts: &Vec<String>) -> (res: String)
    ensures
        res@ == json::json_list(text::texts(hosts@)),
        json::or_empty(json::list_in(res@)) == text::texts(hosts@),
{
    json::write_list(hosts)
}

/// The host list that the database kept; empty if it is not to be read.
pub fn kept_hosts(kept: &str) -> (res: Vec<String>)
    ensures
        text::texts(res@) == json::or_empty(json::list_in(kept@)),
{
    json::read_list(kept)
}

/// A count up to the greatest number with a sign is kept as it is; a larger one as that
/// number less 2 to the 64th.
pub proof fn law_how_counts_are_kept(n: u64, v: i64)
    ensures
        n < 0x8000_0000_0000_0000 ==> as_kept(n) == n,
        n >= 0x8000_0000_0000_0000 ==> as_kept(n) == n - 0x1_0000_0000_0000_0000,
        v >= 0 ==> as_count(v) == v,
        v < 0 ==> as_count(v) == v + 0x1_0000_0000_0000_0000,
{
}

/// A path leads to a database exactly if the name behind its last slash ends in `.db`
/// and has something before that.
pub proof fn law_paths_of_databases(dir: Seq<char>, name: Seq<char>)
    requires
        name.len() > 0,
        !name.contains('/'),
        name != seq!['.'],
        name != seq!['.', '.'],
    ensures
        ({
            let n = name.len() as int;
            let ends = n > 3 && name.skip(n - 3) == seq!['.', 'd', 'b'];
            &&& has_db_extension(name) <==> ends
            &&& has_db_extension(dir + seq!['/'] + name) <==> ends
        }),
{
    reveal_strlit(".");
    reveal_strlit("..");
    reveal_strlit("db");
    assert("."@ =~= seq!['.']);
    assert(".."@ =~= seq!['.', '.']);
    assert("db"@ =~= seq!['d', 'b']);
    let n = name.len() as int;
    let path = dir + seq!['/'] + name;
    let at = dir.len() as int + 1;
    assert forall|i: int| 0 <= i < n implies name[i] != '/' by {
        assert(name.contains(name[i]));
    }
    text::lemma_after_last(name, '/', n);
    assert(text::after_last(name, '/', n) == 0) by {
        let cut = text::after_last(name, '/', n);
        if cut > 0 {
            assert(name[cut - 1] == '/');
        }
    }
    assert(name.skip(0) =~= name);
    assert(file_name(name) == Some(name));
    text::lemma_after_last(path, '/', path.len() as int);
    assert(path[at - 1] == '/');
    assert forall|i: int| at <= i < path.len() implies path[i] != '/' by {
        assert(path[i] == name[i - at]);
    }
    assert(text::after_last(path, '/', path.len() as int) == at);
    assert(path.skip(at) =~= name);
    assert(file_name(path) == Some(name));
    text::lemma_after_last(name, '.', n);
    let dot = text::after_last(name, '.', n);
    if n > 3 && name.skip(n - 3) == seq!['.', 'd', 'b'] {
        let end = name.skip(n - 3);
        assert(name[n - 3] == end[0] && name[n - 2] == end[1] && name[n - 1] == end[2]);
        assert(dot == n - 2);
        assert(name.skip(dot) =~= seq!['d', 'b']);
    }
    if name_has_db(name) {
        assert(name.skip(dot).len() == 2);
        assert(name[dot - 1] == '.');
        let end = name.skip(dot);
        assert(name[n - 2] == end[0] && name[n - 1] == end[1]);
        assert(name.skip(n - 3) =~= seq!['.', 'd', 'b']);
    }
}

/// A slash at the end of a path changes nothing, nor does `/.`; and there is no file name
/// where the last part is `..`, or where there is none.
pub proof fn law_ends_of_paths(path: Seq<char>)
    ensures
        file_name(path + seq!['/']) == file_name(path),
        file_name(path + seq!['/', '.']) == file_name(path),
        file_name(path + seq!['/', '.', '.']) is None,
        file_name(Seq::empty()) is None,
{
    reveal_strlit(".");
    reveal_strlit("..");
    assert("."@ =~= seq!['.']);
    assert(".."@ =~= seq!['.', '.']);
    let n = path.len() as int;
    let a = path + seq!['/'];
    let b = path + seq!['/', '.'];
    let c = path + seq!['/', '.', '.'];
    text::lemma_after_last(a, '/', a.len() as int);
    text::lemma_after_last(b, '/', b.len() as int);
    text::lemma_after_last(c, '/', c.len() as int);
    assert(a[n] == '/' && b[n] == '/' && c[n] == '/');
    assert(b[n + 1] == '.' && c[n + 1] == '.' && c[n + 2] == '.');
    assert(text::after_last(a, '/', a.len() as int) == n + 1);
    assert(text::after_last(b, '/', b.len() as int) == n + 1);
    assert(text::after_last(c, '/', c.len() as int) == n + 1);
    assert(a.skip(n + 1) =~= Seq::<char>::empty());
    assert(b.skip(n + 1) =~= seq!['.']);
    assert(c.skip(n + 1) =~= seq!['.', '.']);
    assert(a.take(n) =~= path);
    assert(b.take(n) =~= path);
    let none = Seq::<char>::empty();
    assert(none.skip(0) =~= none);
}

} // verus!
