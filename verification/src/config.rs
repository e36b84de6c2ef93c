//! Configuration and include-path resolution.
//!
//! `doe` keeps user configuration in a YAML file at
//! `~/.doe/config/config.yaml` (overridable with `-c` / `--config`).  The
//! only key is `include_paths`:
//!
//! ```yaml
//! include_paths:
//!   - ~/.doe/types
//!   - /usr/share/doe/types
//! ```
//!
//! When a bare type name such as `"png"` is requested, each directory is
//! searched in order for `<dir>/png.yaml`.  Command-line `-I` paths come
//! first and take priority over config-file paths.  Reading the file is done
//! by the program around the library.

use vstd::prelude::*;
use crate::schema::compiler::{join_paths, path_join};
use crate::strutil::{chars_of, push_str};

verus! {

/// Contents of the configuration file.
#[derive(Debug, Clone)]
pub struct Config {
    /// Directories to search when resolving a bare type name, searched in
    /// order; a leading `~/` stands for the home directory.
    pub include_paths: Vec<String>,
}

impl Default for Config {
    fn default() -> (res: Self)
        ensures
            res.include_paths@.len() == 0,
    {
        Config { include_paths: Vec::new() }
    }
}

/// The user's home directory, as `dirs::home_dir` finds it (from the
/// environment and the user database); the contract states nothing of it,
/// since it depends on the machine.
#[verifier::external_body]
fn home_dir() -> (res: Option<String>) {
    match dirs::home_dir() {
        Some(h) => Some(h.to_string_lossy().into_owned()),
        None => None,
    }
}

/// The default location of the configuration file under the home
/// directory `home`: `<home>/.doe/config/config.yaml`.
pub open spec fn config_path_under(home: Seq<char>) -> Seq<char> {
    path_join(path_join(path_join(home, ".doe"@), "config"@), "config.yaml"@)
}

/// The configuration file under the given home directory, if there is one.
pub fn default_path_in(home: Option<String>) -> (res: Option<String>)
    ensures
        match home {
            Some(h) => res matches Some(p) && p@ == config_path_under(h@),
            None => res is None,
        },
{
    match home {
        Some(h) => {
            let a = join_paths(h.as_str(), ".doe");
            let b = join_paths(a.as_str(), "config");
            Some(join_paths(b.as_str(), "config.yaml"))
        },
        None => None,
    }
}

impl Config {
    /// The platform-default configuration file, `~/.doe/config/config.yaml`;
    /// `None` when the home directory cannot be determined.
    pub fn default_path() -> (res: Option<String>)
        ensures
            res matches Some(p) ==> exists|home: Seq<char>| p@ == #[trigger] config_path_under(home),
    {
        let home = home_dir();
        let res = default_path_in(home);
        proof {
            if home is Some {
                assert(res->Some_0@ == config_path_under(home->Some_0@));
            }
        }
        res
    }
}

/// A path with a leading `~/` (or a bare `~`) expanded against the home
/// directory `home`; other paths, or any path when there is no home
/// directory, are returned as they are.
pub open spec fn expanded(path: Seq<char>, home: Option<Seq<char>>) -> Seq<char> {
    match home {
        Some(h) => if path == seq!['~'] {
            h
        } else if path.len() >= 2 && path[0] == '~' && path[1] == '/' {
            path_join(h, path.subrange(2, path.len() as int))
        } else {
            path
        },
        None => path,
    }
}

fn string_from(cs: &Vec<char>, from: usize) -> (res: String)
    requires
        from <= cs@.len(),
    ensures
        res@ == cs@.subrange(from as int, cs@.len() as int),
{
    let mut s = String::new();
    let mut i = from;
    while i < cs.len()
        invariant
            from <= i <= cs@.len(),
            s@ == cs@.subrange(from as int, i as int),
        decreases cs@.len() - i,
    {
        crate::strutil::push_char(&mut s, cs[i]);
        i = i + 1;
        assert(s@ =~= cs@.subrange(from as int, i as int));
    }
    s
}

/// Expand a leading `~/` (or a bare `~`) against the home directory `home`.
pub fn expand_tilde_in(path: &str, home: &Option<String>) -> (res: String)
    ensures
        res@ == expanded(path@, match home {
            Some(h) => Some(h@),
            None => None,
        }),
{
    let cs = chars_of(path);
    match home {
        Some(h) => {
            if cs.len() == 1 && cs[0] == '~' {
                assert(cs@ =~= seq!['~']);
                return h.clone();
            }
            if cs.len() >= 2 && cs[0] == '~' && cs[1] == '/' {
                let rest = string_from(&cs, 2);
                return join_paths(h.as_str(), rest.as_str());
            }
            proof {
                if path@ == seq!['~'] {
                    assert(cs@.len() == 1 && cs@[0] == '~');
                }
            }
            path.to_owned()
        },
        None => path.to_owned(),
    }
}

/// Expand a leading `~/` (or a bare `~`) to the user's home directory.
/// Paths that do not start with `~`, or any path when the home directory
/// cannot be determined, are returned unchanged.
pub fn expand_tilde(path: &str) -> (res: String)
    ensures
        exists|home: Option<Seq<char>>| res@ == expanded(path@, home),
{
    let home = home_dir();
    expand_tilde_in(path, &home)
}

/// `res` is the include-path list built from `cli` then `cfg`, each path
/// expanded against the home directory `home`.
pub open spec fn resolved(res: Seq<String>, cli: Seq<String>, cfg: Seq<String>, home: Option<Seq<char>>) -> bool {
    &&& res.len() == cli.len() + cfg.len()
    &&& forall|i: int| 0 <= i < cli.len() ==> (#[trigger] res[i])@ == expanded(cli[i]@, home)
    &&& forall|i: int| 0 <= i < cfg.len() ==> (#[trigger] res[cli.len() + i])@ == expanded(cfg[i]@, home)
}

/// Build the final ordered include-path list against the home directory
/// `home`: command-line paths first, then the configuration file's, each
/// with a leading `~` expanded.
pub fn resolve_include_paths_in(cli_paths: &[String], config: &Config, home: &Option<String>) -> (res: Vec<
    String,
>)
    ensures
        resolved(res@, cli_paths@, config.include_paths@, match home {
            Some(h) => Some(h@),
            None => None,
        }),
{
    let ghost hv = match home {
        Some(h) => Some(h@),
        None => None::<Seq<char>>,
    };
    let mut out: Vec<String> = Vec::new();
    let mut i: usize = 0;
    while i < cli_paths.len()
        invariant
            i <= cli_paths@.len(),
            out@.len() == i,
            hv == match home {
                Some(h) => Some(h@),
                None => None::<Seq<char>>,
            },
            forall|j: int| 0 <= j < i ==> (#[trigger] out@[j])@ == expanded(cli_paths@[j]@, hv),
        decreases cli_paths@.len() - i,
    {
        out.push(expand_tilde_in(cli_paths[i].as_str(), home));
        i = i + 1;
    }
    let mut k: usize = 0;
    while k < config.include_paths.len()
        invariant
            k <= config.include_paths@.len(),
            out@.len() == cli_paths@.len() + k,
            hv == match home {
                Some(h) => Some(h@),
                None => None::<Seq<char>>,
            },
            forall|j: int| 0 <= j < cli_paths@.len() ==> (#[trigger] out@[j])@ == expanded(cli_paths@[j]@, hv),
            forall|j: int|
                0 <= j < k ==> (#[trigger] out@[cli_paths@.len() + j])@ == expanded(config.include_paths@[j]@, hv),
        decreases config.include_paths@.len() - k,
    {
        out.push(expand_tilde_in(config.include_paths[k].as_str(), home));
        k = k + 1;
    }
    out
}

/// Build the final ordered include-path list: command-line paths first,
/// then the configuration file's, each with a leading `~` expanded to the
/// user's home directory.
pub fn resolve_include_paths(cli_paths: &[String], config: &Config) -> (res: Vec<String>)
    ensures
        exists|home: Option<Seq<char>>| #[trigger] resolved(res@, cli_paths@, config.include_paths@, home),
{
    let home = home_dir();
    resolve_include_paths_in(cli_paths, config, &home)
}

// ─────────────────────────────────────────────────────────────────────────────
// Type discovery
// ─────────────────────────────────────────────────────────────────────────────

/// A type discovered on an include path.
#[derive(Debug, Clone, PartialEq, Eq)]
pub struct AvailableType {
    /// The bare name used to invoke the type (e.g. `"png"`).
    pub id: String,
    /// The optional `doc:` string from the schema's top level.
    pub doc: Option<String>,
    /// The file the type was read from.
    pub source: String,
}

/// A duplicate `id` within a single include directory.
#[derive(Debug, Clone, PartialEq, Eq)]
pub struct DuplicateTypeError {
    /// The conflicting type id.
    pub id: String,
    /// The first file (in path order) that defined this id.
    pub first: String,
    /// A later file in the same directory that defined it again.
    pub second: String,
}

/// The message of a duplicate within one directory.
pub open spec fn duplicate_message(id: Seq<char>, first: Seq<char>, second: Seq<char>) -> Seq<char> {
    "duplicate type id '"@ + id + "' in the same include directory:\n  first:  "@ + first
        + "\n  second: "@ + second + "\n  Each schema id must be unique within a directory.\n  "@
        + "To shadow a type from a lower-priority directory, place the replacement in a higher-priority directory instead."@
}

impl DuplicateTypeError {
    /// The human-readable description of the conflict.
    pub fn message(&self) -> (res: String)
        ensures
            res@ == duplicate_message(self.id@, self.first@, self.second@),
    {
        let mut s = String::new();
        push_str(&mut s, "duplicate type id '");
        push_str(&mut s, self.id.as_str());
        push_str(&mut s, "' in the same include directory:\n  first:  ");
        push_str(&mut s, self.first.as_str());
        push_str(&mut s, "\n  second: ");
        push_str(&mut s, self.second.as_str());
        push_str(&mut s, "\n  Each schema id must be unique within a directory.\n  ");
        push_str(
            &mut s,
            "To shadow a type from a lower-priority directory, place the replacement in a higher-priority directory instead.",
        );
        assert(s@ =~= duplicate_message(self.id@, self.first@, self.second@));
        s
    }
}

/// A schema file found in an include directory: its path, and the `id` and
/// `doc` its top level declares.
#[derive(Debug, Clone, PartialEq, Eq)]
pub struct ListedSchema {
    pub path: String,
    pub id: String,
    pub doc: Option<String>,
}

/// Does the file name of `p` (what follows its last `/`) have a non-empty
/// stem and the extension `dot_ext` (given with its dot)?
pub open spec fn has_extension(p: Seq<char>, dot_ext: Seq<char>) -> bool {
    &&& p.len() > dot_ext.len()
    &&& p.subrange(p.len() - dot_ext.len(), p.len() as int) == dot_ext
    &&& p[p.len() - dot_ext.len() - 1] != '/'
}

/// Is `p`, a path as a directory listing gives it, a schema file: one whose
/// extension is `yaml` or `yml`?
pub open spec fn schema_file_spec(p: Seq<char>) -> bool {
    has_extension(p, ".yaml"@) || has_extension(p, ".yml"@)
}

fn ends_with_ext(cs: &Vec<char>, dot_ext: &str) -> (res: bool)
    ensures
        res == has_extension(cs@, dot_ext@),
{
    let e = chars_of(dot_ext);
    if cs.len() <= e.len() {
        return false;
    }
    if !crate::strutil::ends_with(cs.as_slice(), e.as_slice()) {
        return false;
    }
    cs[cs.len() - e.len() - 1] != '/'
}

/// Is `path` (an entry of a directory listing) a schema file, that is, is
/// its extension `yaml` or `yml`?
pub fn is_schema_file(path: &str) -> (res: bool)
    ensures
        res == schema_file_spec(path@),
{
    let cs = chars_of(path);
    ends_with_ext(&cs, ".yaml") || ends_with_ext(&cs, ".yml")
}

/// The schema files among the files of one directory, in order: those
/// whose extension is `yaml` or `yml` and whose top level could be read as
/// an `id` and an optional `doc`.
pub open spec fn listed(files: Seq<(String, Option<(String, Option<String>)>)>) -> Seq<ListedSchema>
    decreases files.len(),
{
    if files.len() == 0 {
        Seq::empty()
    } else {
        let (path, header) = files.last();
        let prev = listed(files.drop_last());
        match header {
            Some((id, doc)) => if schema_file_spec(path@) {
                prev.push(ListedSchema { path, id, doc })
            } else {
                prev
            },
            None => prev,
        }
    }
}

/// Keep the schema files of one directory listing: each file is given with
/// its header (`id` and `doc`) where its text could be read as one.  Files
/// with another extension, or without a header, are skipped.
pub fn schema_listing(files: Vec<(String, Option<(String, Option<String>)>)>) -> (res: Vec<ListedSchema>)
    ensures
        res@ == listed(files@),
{
    let mut rest = files;
    let ghost orig = rest@;
    let mut out: Vec<ListedSchema> = Vec::new();
    let mut i: usize = 0;
    assert(orig.len() == rest.len());
    assert(orig.subrange(0, 0) =~= Seq::<(String, Option<(String, Option<String>)>)>::empty());
    while rest.len() > 0
        invariant
            i + rest@.len() == orig.len(),
            orig.len() <= usize::MAX,
            rest@ == orig.subrange(i as int, orig.len() as int),
            out@ == listed(orig.subrange(0, i as int)),
        decreases rest@.len(),
    {
        let (path, header) = rest.remove(0);
        proof {
            let post = orig.subrange(0, i + 1);
            assert(post.drop_last() =~= orig.subrange(0, i as int));
            assert(post.last() == (path, header));
        }
        match header {
            Some((id, doc)) => {
                if is_schema_file(path.as_str()) {
                    out.push(ListedSchema { path, id, doc });
                }
            },
            None => {},
        }
        i = i + 1;
        assert(rest@ =~= orig.subrange(i as int, orig.len() as int));
    }
    assert(orig.subrange(0, orig.len() as int) =~= orig);
    out
}

/// Is `a` before `b` in lexicographic (code point) order?
pub open spec fn text_lt(a: Seq<char>, b: Seq<char>) -> bool
    decreases a.len(),
{
    if b.len() == 0 {
        false
    } else if a.len() == 0 {
        true
    } else if a[0] != b[0] {
        a[0] < b[0]
    } else {
        text_lt(a.drop_first(), b.drop_first())
    }
}

fn text_less(a: &String, b: &String) -> (res: bool)
    ensures
        res == text_lt(a@, b@),
{
    let x = chars_of(a.as_str());
    let y = chars_of(b.as_str());
    let mut i: usize = 0;
    assert(x@.subrange(0, x@.len() as int) =~= x@);
    assert(y@.subrange(0, y@.len() as int) =~= y@);
    while i < x.len() && i < y.len() && x[i] == y[i]
        invariant
            i <= x@.len(),
            i <= y@.len(),
            x@ == a@,
            y@ == b@,
            text_lt(a@, b@) == text_lt(x@.subrange(i as int, x@.len() as int), y@.subrange(i as int, y@.len() as int)),
        decreases x@.len() - i,
    {
        proof {
            let xs = x@.subrange(i as int, x@.len() as int);
            let ys = y@.subrange(i as int, y@.len() as int);
            assert(xs.drop_first() =~= x@.subrange(i + 1, x@.len() as int));
            assert(ys.drop_first() =~= y@.subrange(i + 1, y@.len() as int));
        }
        i = i + 1;
    }
    if i == y.len() {
        false
    } else if i == x.len() {
        true
    } else {
        x[i] < y[i]
    }
}

/// The index of the first entry with the least path.
pub open spec fn min_path_index(s: Seq<ListedSchema>) -> int
    decreases s.len(),
{
    if s.len() <= 1 {
        0
    } else {
        let k = min_path_index(s.drop_last());
        if text_lt(s.last().path@, s[k].path@) { s.len() - 1 } else { k }
    }
}

/// Entries in path order (the first of equal paths first).
pub open spec fn sort_by_path(s: Seq<ListedSchema>) -> Seq<ListedSchema>
    decreases s.len(),
{
    if s.len() == 0 {
        s
    } else {
        let m = min_path_index(s);
        if 0 <= m < s.len() {
            seq![s[m]] + sort_by_path(s.remove(m))
        } else {
            s
        }
    }
}

proof fn lemma_min_path_index(s: Seq<ListedSchema>)
    requires
        s.len() >= 1,
    ensures
        0 <= min_path_index(s) < s.len(),
    decreases s.len(),
{
    if s.len() > 1 {
        lemma_min_path_index(s.drop_last());
    }
}

/// The index of the first entry with the least path, found by a scan.
fn min_path_at(v: &Vec<ListedSchema>) -> (res: usize)
    requires
        v@.len() >= 1,
    ensures
        res == min_path_index(v@),
{
    let mut best: usize = 0;
    let mut i: usize = 1;
    assert(v@.subrange(0, 1).len() == 1);
    while i < v.len()
        invariant
            1 <= i <= v@.len(),
            best < i,
            best == min_path_index(v@.subrange(0, i as int)),
        decreases v@.len() - i,
    {
        proof {
            let sub = v@.subrange(0, i + 1);
            assert(sub.drop_last() =~= v@.subrange(0, i as int));
            assert(sub.last() == v@[i as int]);
            assert(sub[best as int] == v@[best as int]);
        }
        if text_less(&v[i].path, &v[best].path) {
            best = i;
        }
        i = i + 1;
    }
    assert(v@.subrange(0, v@.len() as int) =~= v@);
    best
}

/// Put entries in path order.
fn sort_listing(v: Vec<ListedSchema>) -> (res: Vec<ListedSchema>)
    ensures
        res@ == sort_by_path(v@),
{
    let mut rest = v;
    let mut out: Vec<ListedSchema> = Vec::new();
    while rest.len() > 0
        invariant
            out@ + sort_by_path(rest@) == sort_by_path(v@),
        decreases rest@.len(),
    {
        let m = min_path_at(&rest);
        proof {
            lemma_min_path_index(rest@);
        }
        let ghost before = rest@;
        let e = rest.remove(m);
        let ghost prev = out@;
        out.push(e);
        assert(out@ + sort_by_path(rest@) =~= prev + sort_by_path(before));
    }
    assert(out@ + sort_by_path(rest@) =~= out@);
    out
}

/// The index of the first available type with the least id.
pub open spec fn min_id_index(s: Seq<AvailableType>) -> int
    decreases s.len(),
{
    if s.len() <= 1 {
        0
    } else {
        let k = min_id_index(s.drop_last());
        if text_lt(s.last().id@, s[k].id@) { s.len() - 1 } else { k }
    }
}

/// Available types in id order (the first of equal ids first).
pub open spec fn sort_by_id(s: Seq<AvailableType>) -> Seq<AvailableType>
    decreases s.len(),
{
    if s.len() == 0 {
        s
    } else {
        let m = min_id_index(s);
        if 0 <= m < s.len() {
            seq![s[m]] + sort_by_id(s.remove(m))
        } else {
            s
        }
    }
}

proof fn lemma_min_id_index(s: Seq<AvailableType>)
    requires
        s.len() >= 1,
    ensures
        0 <= min_id_index(s) < s.len(),
    decreases s.len(),
{
    if s.len() > 1 {
        lemma_min_id_index(s.drop_last());
    }
}

fn min_id_at(v: &Vec<AvailableType>) -> (res: usize)
    requires
        v@.len() >= 1,
    ensures
        res == min_id_index(v@),
{
    let mut best: usize = 0;
    let mut i: usize = 1;
    while i < v.len()
        invariant
            1 <= i <= v@.len(),
            best < i,
            best == min_id_index(v@.subrange(0, i as int)),
        decreases v@.len() - i,
    {
        proof {
            let sub = v@.subrange(0, i + 1);
            assert(sub.drop_last() =~= v@.subrange(0, i as int));
            assert(sub.last() == v@[i as int]);
            assert(sub[best as int] == v@[best as int]);
        }
        if text_less(&v[i].id, &v[best].id) {
            best = i;
        }
        i = i + 1;
    }
    assert(v@.subrange(0, v@.len() as int) =~= v@);
    best
}

/// Put available types in id order.
fn sort_types(v: Vec<AvailableType>) -> (res: Vec<AvailableType>)
    ensures
        res@ == sort_by_id(v@),
{
    let mut rest = v;
    let mut out: Vec<AvailableType> = Vec::new();
    while rest.len() > 0
        invariant
            out@ + sort_by_id(rest@) == sort_by_id(v@),
        decreases rest@.len(),
    {
        let m = min_id_at(&rest);
        proof {
            lemma_min_id_index(rest@);
        }
        let ghost before = rest@;
        let e = rest.remove(m);
        let ghost prev = out@;
        out.push(e);
        assert(out@ + sort_by_id(rest@) =~= prev + sort_by_id(before));
    }
    assert(out@ + sort_by_id(rest@) =~= out@);
    out
}

/// The path of the first entry (in order) whose id is `id`.
pub open spec fn first_path_with_id(s: Seq<ListedSchema>, id: Seq<char>) -> Option<Seq<char>>
    decreases s.len(),
{
    if s.len() == 0 {
        None
    } else {
        match first_path_with_id(s.drop_last(), id) {
            Some(p) => Some(p),
            None => if s.last().id@ == id {
                Some(s.last().path@)
            } else {
                None
            },
        }
    }
}

/// The conflicts within one directory, entries taken in order: each entry
/// whose id an earlier entry has, as `(id, first path, this path)`.
pub open spec fn dir_conflicts(s: Seq<ListedSchema>) -> Seq<(Seq<char>, Seq<char>, Seq<char>)>
    decreases s.len(),
{
    if s.len() == 0 {
        Seq::empty()
    } else {
        dir_conflicts(s.drop_last()) + match first_path_with_id(s.drop_last(), s.last().id@) {
            Some(p) => seq![(s.last().id@, p, s.last().path@)],
            None => Seq::empty(),
        }
    }
}

/// The available type an entry stands for.
pub open spec fn avail(e: ListedSchema) -> AvailableType {
    AvailableType { id: e.id, doc: e.doc, source: e.path }
}

/// The entries of a directory that are kept, in order, skipping ids
/// already claimed; and the claimed ids afterwards.
pub open spec fn commit(s: Seq<ListedSchema>, claimed: Seq<Seq<char>>) -> (Seq<AvailableType>, Seq<Seq<char>>)
    decreases s.len(),
{
    if s.len() == 0 {
        (Seq::empty(), claimed)
    } else {
        let (kept, cl) = commit(s.drop_last(), claimed);
        if cl.contains(s.last().id@) {
            (kept, cl)
        } else {
            (kept.push(avail(s.last())), cl.push(s.last().id@))
        }
    }
}

/// The types and conflicts discovered in `dirs` (highest priority first),
/// given the ids already claimed: each directory in path order; a directory
/// with conflicts contributes only them; otherwise its entries whose ids
/// are not yet claimed are kept, in path order.
pub open spec fn discover_spec(dirs: Seq<Seq<ListedSchema>>, claimed: Seq<Seq<char>>) -> (
    Seq<AvailableType>,
    Seq<(Seq<char>, Seq<char>, Seq<char>)>,
)
    decreases dirs.len(),
{
    if dirs.len() == 0 {
        (Seq::empty(), Seq::empty())
    } else {
        let s = sort_by_path(dirs[0]);
        let conflicts = dir_conflicts(s);
        if conflicts.len() > 0 {
            let (t, e) = discover_spec(dirs.drop_first(), claimed);
            (t, conflicts + e)
        } else {
            let (kept, cl) = commit(s, claimed);
            let (t, e) = discover_spec(dirs.drop_first(), cl);
            (kept + t, e)
        }
    }
}

/// The `(id, first, second)` of each conflict.
pub open spec fn conflict_views(e: Seq<DuplicateTypeError>) -> Seq<(Seq<char>, Seq<char>, Seq<char>)> {
    e.map_values(|d: DuplicateTypeError| (d.id@, d.first@, d.second@))
}

/// The entries of each listed directory.
pub open spec fn listings(d: Seq<Vec<ListedSchema>>) -> Seq<Seq<ListedSchema>> {
    d.map_values(|v: Vec<ListedSchema>| v@)
}

fn first_path_in(firsts: &Vec<(String, String)>, id: &String) -> (res: Option<String>)
    ensures
        match res {
            Some(p) => exists|k: int| 0 <= k < firsts@.len() && firsts@[k].0@ == id@ && p@ == firsts@[k].1@
                && forall|j: int| 0 <= j < k ==> firsts@[j].0@ != id@,
            None => forall|j: int| 0 <= j < firsts@.len() ==> firsts@[j].0@ != id@,
        },
{
    let mut i: usize = 0;
    while i < firsts.len()
        invariant
            i <= firsts@.len(),
            forall|j: int| 0 <= j < i ==> firsts@[j].0@ != id@,
        decreases firsts@.len() - i,
    {
        if crate::schema::lexer::str_is(&firsts[i].0, id.as_str()) {
            return Some(firsts[i].1.clone());
        }
        i = i + 1;
    }
    None
}

proof fn lemma_first_path(s: Seq<ListedSchema>, firsts: Seq<(String, String)>, id: Seq<char>)
    requires
        forall|x: Seq<char>|
            #[trigger] first_path_with_id(s, x) is Some <==> exists|j: int| 0 <= j < firsts.len() && firsts[j].0@ == x,
        forall|j: int|
            0 <= j < firsts.len() ==> first_path_with_id(s, #[trigger] firsts[j].0@) == Some(firsts[j].1@),
    ensures
        match first_path_with_id(s, id) {
            Some(p) => exists|k: int| 0 <= k < firsts.len() && firsts[k].0@ == id && p == firsts[k].1@,
            None => forall|j: int| 0 <= j < firsts.len() ==> firsts[j].0@ != id,
        },
{
}

/// The conflicts within a directory whose entries are in order.
fn conflicts_in(s: &Vec<ListedSchema>) -> (res: Vec<DuplicateTypeError>)
    ensures
        conflict_views(res@) == dir_conflicts(s@),
{
    let mut firsts: Vec<(String, String)> = Vec::new();
    let mut out: Vec<DuplicateTypeError> = Vec::new();
    let mut i: usize = 0;
    while i < s.len()
        invariant
            i <= s@.len(),
            conflict_views(out@) == dir_conflicts(s@.subrange(0, i as int)),
            forall|x: Seq<char>|
                #[trigger] first_path_with_id(s@.subrange(0, i as int), x) is Some <==> exists|j: int|
                    0 <= j < firsts@.len() && firsts@[j].0@ == x,
            forall|j: int|
                0 <= j < firsts@.len() ==> first_path_with_id(s@.subrange(0, i as int), #[trigger] firsts@[j].0@)
                    == Some(firsts@[j].1@),
        decreases s@.len() - i,
    {
        let e = &s[i];
        let ghost pre = s@.subrange(0, i as int);
        let ghost post = s@.subrange(0, i + 1);
        proof {
            assert(post.drop_last() =~= pre);
            assert(post.last() == s@[i as int]);
            lemma_first_path(pre, firsts@, e.id@);
        }
        match first_path_in(&firsts, &e.id) {
            Some(first) => {
                let ghost prev = out@;
                out.push(DuplicateTypeError { id: e.id.clone(), first, second: e.path.clone() });
                proof {
                    assert(conflict_views(out@) =~= conflict_views(prev).push((e.id@, first_path_with_id(pre, e.id@)->Some_0, e.path@)));
                    assert forall|x: Seq<char>| #[trigger] first_path_with_id(post, x) == first_path_with_id(pre, x) by {
                        if x == e.id@ {
                        }
                    }
                    assert(conflict_views(out@) =~= dir_conflicts(post));
                }
            },
            None => {
                let ghost prevf = firsts@;
                firsts.push((e.id.clone(), e.path.clone()));
                proof {
                    assert(dir_conflicts(post) =~= dir_conflicts(pre));
                    assert forall|x: Seq<char>|
                        #[trigger] first_path_with_id(post, x) is Some <==> exists|j: int|
                            0 <= j < firsts@.len() && firsts@[j].0@ == x by {
                        if x == e.id@ {
                            assert(firsts@[prevf.len() as int].0@ == x);
                        } else {
                            if first_path_with_id(pre, x) is Some {
                                let j = choose|j: int| 0 <= j < prevf.len() && prevf[j].0@ == x;
                                assert(firsts@[j] == prevf[j]);
                            }
                            if exists|j: int| 0 <= j < firsts@.len() && firsts@[j].0@ == x {
                                let j = choose|j: int| 0 <= j < firsts@.len() && firsts@[j].0@ == x;
                                assert(j < prevf.len());
                                assert(prevf[j] == firsts@[j]);
                            }
                        }
                    }
                    assert forall|j: int|
                        0 <= j < firsts@.len() implies first_path_with_id(post, #[trigger] firsts@[j].0@)
                            == Some(firsts@[j].1@) by {
                        if j < prevf.len() {
                            assert(firsts@[j] == prevf[j]);
                        }
                    }
                }
            },
        }
        i = i + 1;
    }
    assert(s@.subrange(0, s@.len() as int) =~= s@);
    out
}

/// Keep the entries of a directory whose ids are not yet claimed, claiming
/// them, in order.
fn commit_entries(s: Vec<ListedSchema>, claimed: &mut Vec<String>) -> (res: Vec<AvailableType>)
    ensures
        commit(s@, crate::schema::compiler::names(old(claimed)@)) == (res@, crate::schema::compiler::names(final(claimed)@)),
{
    let mut rest = s;
    let mut kept: Vec<AvailableType> = Vec::new();
    let ghost orig = rest@;
    let mut i: usize = 0;
    assert(orig.len() == rest.len());
    assert(orig.subrange(0, 0) =~= Seq::<ListedSchema>::empty());
    while rest.len() > 0
        invariant
            i + rest@.len() == orig.len(),
            orig.len() <= usize::MAX,
            rest@ == orig.subrange(i as int, orig.len() as int),
            commit(orig.subrange(0, i as int), crate::schema::compiler::names(old(claimed)@)) == (
                kept@,
                crate::schema::compiler::names(claimed@),
            ),
        decreases rest@.len(),
    {
        let e = rest.remove(0);
        proof {
            let pre = orig.subrange(0, i as int);
            let post = orig.subrange(0, i + 1);
            assert(post.drop_last() =~= pre);
            assert(post.last() == e);
        }
        let known = crate::schema::compiler::contains_name(claimed.as_slice(), &e.id);
        if !known {
            let ghost prevc = claimed@;
            claimed.push(e.id.clone());
            assert(crate::schema::compiler::names(claimed@) =~= crate::schema::compiler::names(prevc).push(e.id@));
            kept.push(AvailableType { id: e.id, doc: e.doc, source: e.path });
        }
        i = i + 1;
        assert(rest@ =~= orig.subrange(i as int, orig.len() as int));
    }
    assert(orig.subrange(0, orig.len() as int) =~= orig);
    kept
}

/// Merge the schema files found on the include paths (highest priority
/// first; each directory's listing in any order) into a list of available
/// types.
///
/// Two files in the same directory with the same `id` are an error, and all
/// such conflicts, in every directory, are reported together; a directory
/// with conflicts contributes no types.  The same `id` in different
/// directories is allowed: the highest-priority one wins.  The types are
/// listed in id order.
pub fn discover_types(dirs: Vec<Vec<ListedSchema>>) -> (res: Result<Vec<AvailableType>, Vec<DuplicateTypeError>>)
    ensures
        ({
            let (types, conflicts) = discover_spec(listings(dirs@), Seq::empty());
            &&& conflicts.len() == 0 ==> (res matches Ok(t) && t@ == sort_by_id(types))
            &&& conflicts.len() > 0 ==> (res matches Err(e) && conflict_views(e@) == conflicts)
        }),
{
    let mut rest = dirs;
    let mut claimed: Vec<String> = Vec::new();
    let mut types: Vec<AvailableType> = Vec::new();
    let mut errors: Vec<DuplicateTypeError> = Vec::new();
    let ghost goal = discover_spec(listings(dirs@), Seq::empty());
    assert(crate::schema::compiler::names(claimed@) =~= Seq::<Seq<char>>::empty());
    while rest.len() > 0
        invariant
            ({
                let r = discover_spec(listings(rest@), crate::schema::compiler::names(claimed@));
                types@ + r.0 == goal.0 && conflict_views(errors@) + r.1 == goal.1
            }),
        decreases rest@.len(),
    {
        let ghost before = listings(rest@);
        let ghost cl0 = crate::schema::compiler::names(claimed@);
        let dir = rest.remove(0);
        assert(listings(rest@) =~= before.drop_first());
        assert(before[0] == dir@);
        let sorted = sort_listing(dir);
        let found = conflicts_in(&sorted);
        if found.len() > 0 {
            let ghost preve = errors@;
            let mut k: usize = 0;
            while k < found.len()
                invariant
                    k <= found@.len(),
                    conflict_views(errors@) == conflict_views(preve) + conflict_views(found@.subrange(0, k as int)),
                decreases found@.len() - k,
            {
                let c = copy_conflict(&found[k]);
                let ghost pe = errors@;
                errors.push(c);
                proof {
                    let v = (found@[k as int].id@, found@[k as int].first@, found@[k as int].second@);
                    assert(conflict_views(errors@) =~= conflict_views(pe).push(v));
                    assert(conflict_views(found@.subrange(0, k + 1)) =~= conflict_views(found@.subrange(0, k as int)).push(v));
                }
                k = k + 1;
                assert(conflict_views(errors@) =~= conflict_views(preve) + conflict_views(found@.subrange(0, k as int)));
            }
            assert(found@.subrange(0, found@.len() as int) =~= found@);
            assert(conflict_views(errors@) + discover_spec(listings(rest@), crate::schema::compiler::names(claimed@)).1
                =~= conflict_views(preve) + discover_spec(before, cl0).1);
        } else {
            let ordered = commit_entries(sorted, &mut claimed);
            let ghost prevt = types@;
            let mut k: usize = 0;
            let mut ordered = ordered;
            let ghost all = ordered@;
            assert(all.len() == ordered.len());
            while ordered.len() > 0
                invariant
                    k + ordered@.len() == all.len(),
                    all.len() <= usize::MAX,
                    ordered@ == all.subrange(k as int, all.len() as int),
                    types@ == prevt + all.subrange(0, k as int),
                decreases ordered@.len(),
            {
                let t = ordered.remove(0);
                types.push(t);
                k = k + 1;
                assert(types@ =~= prevt + all.subrange(0, k as int));
                assert(ordered@ =~= all.subrange(k as int, all.len() as int));
            }
            assert(all.subrange(0, all.len() as int) =~= all);
            assert(types@ + discover_spec(listings(rest@), crate::schema::compiler::names(claimed@)).0
                =~= prevt + discover_spec(before, cl0).0);
        }
    }
    if errors.len() == 0 {
        assert(goal.1 =~= conflict_views(errors@));
        assert(types@ =~= goal.0);
        Ok(sort_types(types))
    } else {
        Err(errors)
    }
}

fn copy_conflict(d: &DuplicateTypeError) -> (res: DuplicateTypeError)
    ensures
        res.id@ == d.id@ && res.first@ == d.first@ && res.second@ == d.second@,
{
    DuplicateTypeError { id: d.id.clone(), first: d.first.clone(), second: d.second.clone() }
}


// ─────────────────────────────────────────────────────────────────────────────
// Laws of type discovery
// ─────────────────────────────────────────────────────────────────────────────

/// No two of the types have the same id.
pub open spec fn ids_distinct(t: Seq<AvailableType>) -> bool {
    forall|i: int, j: int| 0 <= i < j < t.len() ==> t[i].id@ != t[j].id@
}

/// No two entries of a directory have the same id.
pub open spec fn listed_ids_distinct(s: Seq<ListedSchema>) -> bool {
    forall|i: int, j: int| 0 <= i < j < s.len() ==> s[i].id@ != s[j].id@
}

proof fn lemma_text_lt_irrefl(a: Seq<char>)
    ensures
        !text_lt(a, a),
    decreases a.len(),
{
    if a.len() > 0 {
        lemma_text_lt_irrefl(a.drop_first());
    }
}

proof fn lemma_text_lt_trans(a: Seq<char>, b: Seq<char>, c: Seq<char>)
    requires
        text_lt(a, b),
        text_lt(b, c),
    ensures
        text_lt(a, c),
    decreases a.len(),
{
    if a.len() > 0 && b.len() > 0 && c.len() > 0 && a[0] == b[0] && b[0] == c[0] {
        lemma_text_lt_trans(a.drop_first(), b.drop_first(), c.drop_first());
    }
}

proof fn lemma_min_id(s: Seq<AvailableType>)
    requires
        s.len() >= 1,
    ensures
        0 <= min_id_index(s) < s.len(),
        forall|j: int| 0 <= j < s.len() ==> !text_lt(#[trigger] s[j].id@, s[min_id_index(s)].id@),
    decreases s.len(),
{
    lemma_min_id_index(s);
    if s.len() == 1 {
        lemma_text_lt_irrefl(s[0].id@);
    } else {
        let p = s.drop_last();
        lemma_min_id(p);
        let k = min_id_index(p);
        assert(p[k] == s[k]);
        if text_lt(s.last().id@, s[k].id@) {
            assert forall|j: int| 0 <= j < s.len() implies !text_lt(#[trigger] s[j].id@, s.last().id@) by {
                if j == s.len() - 1 {
                    lemma_text_lt_irrefl(s.last().id@);
                } else {
                    assert(p[j] == s[j]);
                    if text_lt(s[j].id@, s.last().id@) {
                        lemma_text_lt_trans(s[j].id@, s.last().id@, s[k].id@);
                    }
                }
            }
        } else {
            assert forall|j: int| 0 <= j < s.len() implies !text_lt(#[trigger] s[j].id@, s[k].id@) by {
                if j < s.len() - 1 {
                    assert(p[j] == s[j]);
                }
            }
        }
    }
}

proof fn lemma_remove_index<A>(s: Seq<A>, m: int, q: int)
    requires
        0 <= m < s.len(),
        0 <= q < s.len() - 1,
    ensures
        s.remove(m)[q] == (if q < m { s[q] } else { s[q + 1] }),
{
}

proof fn lemma_remove_contains<A>(s: Seq<A>, m: int, x: A)
    requires
        0 <= m < s.len(),
    ensures
        s.remove(m).contains(x) ==> s.contains(x),
        s.contains(x) && x != s[m] ==> s.remove(m).contains(x),
{
    let r = s.remove(m);
    if r.contains(x) {
        let q = choose|q: int| 0 <= q < r.len() && r[q] == x;
        lemma_remove_index(s, m, q);
        if q < m {
            assert(s[q] == x);
        } else {
            assert(s[q + 1] == x);
        }
    }
    if s.contains(x) && x != s[m] {
        let j = choose|j: int| 0 <= j < s.len() && s[j] == x;
        if j < m {
            lemma_remove_index(s, m, j);
            assert(r[j] == x);
        } else {
            lemma_remove_index(s, m, j - 1);
            assert(r[j - 1] == x);
        }
    }
}

/// Sorting by id keeps the types, one for one, and puts them in id order.
pub proof fn law_sort_by_id(s: Seq<AvailableType>)
    ensures
        sort_by_id(s).len() == s.len(),
        forall|x: AvailableType| sort_by_id(s).contains(x) <==> s.contains(x),
        forall|i: int, j: int|
            0 <= i < j < s.len() ==> !text_lt(sort_by_id(s)[j].id@, sort_by_id(s)[i].id@),
        ids_distinct(s) ==> ids_distinct(sort_by_id(s)),
    decreases s.len(),
{
    if s.len() > 0 {
        lemma_min_id(s);
        let m = min_id_index(s);
        let r = s.remove(m);
        law_sort_by_id(r);
        let t = sort_by_id(r);
        let out = sort_by_id(s);
        assert(out == seq![s[m]] + t);
        assert forall|x: AvailableType| out.contains(x) <==> s.contains(x) by {
            lemma_remove_contains(s, m, x);
            if out.contains(x) {
                let k = choose|k: int| 0 <= k < out.len() && out[k] == x;
                if k > 0 {
                    assert(t[k - 1] == x);
                    assert(t.contains(x));
                }
            }
            if s.contains(x) {
                if x == s[m] {
                    assert(out[0] == x);
                } else {
                    assert(t.contains(x));
                    let k = choose|k: int| 0 <= k < t.len() && t[k] == x;
                    assert(out[k + 1] == x);
                }
            }
        }
        assert forall|i: int, j: int| 0 <= i < j < s.len() implies !text_lt(out[j].id@, out[i].id@) by {
            assert(out[j] == t[j - 1]);
            if i == 0 {
                assert(t.contains(t[j - 1]));
                lemma_remove_contains(s, m, t[j - 1]);
                let q = choose|q: int| 0 <= q < s.len() && s[q] == t[j - 1];
                assert(!text_lt(s[q].id@, s[m].id@));
            } else {
                assert(out[i] == t[i - 1]);
            }
        }
        if ids_distinct(s) {
            assert forall|i: int, j: int| 0 <= i < j < r.len() implies r[i].id@ != r[j].id@ by {
                lemma_remove_index(s, m, i);
                lemma_remove_index(s, m, j);
            }
            assert forall|i: int, j: int| 0 <= i < j < out.len() implies out[i].id@ != out[j].id@ by {
                assert(out[j] == t[j - 1]);
                if i == 0 {
                    assert(t.contains(t[j - 1]));
                    lemma_remove_contains(s, m, t[j - 1]);
                    let q = choose|q: int| 0 <= q < r.len() && r[q] == t[j - 1];
                    lemma_remove_index(s, m, q);
                } else {
                    assert(out[i] == t[i - 1]);
                }
            }
        }
    }
}


proof fn lemma_sort_by_path_members(s: Seq<ListedSchema>)
    ensures
        forall|x: ListedSchema| sort_by_path(s).contains(x) <==> s.contains(x),
    decreases s.len(),
{
    if s.len() > 0 {
        lemma_min_path_index(s);
        let m = min_path_index(s);
        let r = s.remove(m);
        lemma_sort_by_path_members(r);
        let t = sort_by_path(r);
        let out = sort_by_path(s);
        assert(out == seq![s[m]] + t);
        assert forall|x: ListedSchema| out.contains(x) <==> s.contains(x) by {
            lemma_remove_contains(s, m, x);
            if out.contains(x) {
                let k = choose|k: int| 0 <= k < out.len() && out[k] == x;
                if k > 0 {
                    assert(t[k - 1] == x);
                    assert(t.contains(x));
                }
            }
            if s.contains(x) {
                if x == s[m] {
                    assert(out[0] == x);
                } else {
                    assert(t.contains(x));
                    let k = choose|k: int| 0 <= k < t.len() && t[k] == x;
                    assert(out[k + 1] == x);
                }
            }
        }
    }
}

proof fn lemma_first_path_none(s: Seq<ListedSchema>, id: Seq<char>)
    ensures
        first_path_with_id(s, id) is None <==> forall|j: int| 0 <= j < s.len() ==> s[j].id@ != id,
    decreases s.len(),
{
    if s.len() > 0 {
        lemma_first_path_none(s.drop_last(), id);
        if first_path_with_id(s, id) is None {
            assert forall|j: int| 0 <= j < s.len() implies s[j].id@ != id by {
                if j < s.len() - 1 {
                    assert(s.drop_last()[j] == s[j]);
                }
            }
        }
        if forall|j: int| 0 <= j < s.len() ==> s[j].id@ != id {
            assert forall|j: int| 0 <= j < s.len() - 1 implies s.drop_last()[j].id@ != id by {
                assert(s.drop_last()[j] == s[j]);
            }
        }
    }
}

proof fn lemma_no_conflicts(s: Seq<ListedSchema>)
    requires
        dir_conflicts(s).len() == 0,
    ensures
        listed_ids_distinct(s),
    decreases s.len(),
{
    if s.len() > 0 {
        let p = s.drop_last();
        lemma_no_conflicts(p);
        lemma_first_path_none(p, s.last().id@);
        assert forall|i: int, j: int| 0 <= i < j < s.len() implies s[i].id@ != s[j].id@ by {
            assert(p[i] == s[i]);
            if j < s.len() - 1 {
                assert(p[j] == s[j]);
            }
        }
    }
}

proof fn lemma_commit(s: Seq<ListedSchema>, claimed: Seq<Seq<char>>)
    ensures
        ({
            let (kept, cl) = commit(s, claimed);
            &&& forall|y: Seq<char>|
                #[trigger] cl.contains(y) ==> claimed.contains(y) || exists|j: int| 0 <= j < s.len() && s[j].id@ == y
            &&& forall|y: Seq<char>| #[trigger] claimed.contains(y) ==> cl.contains(y)
            &&& forall|k: int|
                0 <= k < kept.len() ==> cl.contains(#[trigger] kept[k].id@) && !claimed.contains(kept[k].id@)
            &&& forall|x: AvailableType| kept.contains(x) ==> exists|j: int| 0 <= j < s.len() && x == avail(s[j])
            &&& ids_distinct(kept)
            &&& listed_ids_distinct(s) ==> forall|j: int|
                0 <= j < s.len() && !claimed.contains(s[j].id@) ==> kept.contains(avail(#[trigger] s[j]))
        }),
    decreases s.len(),
{
    if s.len() > 0 {
        let p = s.drop_last();
        lemma_commit(p, claimed);
        let (kept0, cl0) = commit(p, claimed);
        let e = s.last();
        assert forall|j: int| 0 <= j < p.len() implies p[j] == s[j] by {}
        if !cl0.contains(e.id@) {
            let kept = kept0.push(avail(e));
            let cl = cl0.push(e.id@);
            assert forall|y: Seq<char>| #[trigger] cl.contains(y) implies claimed.contains(y) || exists|j: int|
                0 <= j < s.len() && s[j].id@ == y by {
                if y != e.id@ {
                    assert(cl0.contains(y)) by {
                        let q = choose|q: int| 0 <= q < cl.len() && cl[q] == y;
                        assert(cl0[q] == y);
                    }
                    if !claimed.contains(y) {
                        let j = choose|j: int| 0 <= j < p.len() && p[j].id@ == y;
                        assert(s[j].id@ == y);
                    }
                } else {
                    assert(s[s.len() - 1].id@ == y);
                }
            }
            assert forall|y: Seq<char>| #[trigger] claimed.contains(y) implies cl.contains(y) by {
                assert(cl0.contains(y));
                let q = choose|q: int| 0 <= q < cl0.len() && cl0[q] == y;
                assert(cl[q] == y);
            }
            assert forall|k: int| 0 <= k < kept.len() implies cl.contains(#[trigger] kept[k].id@)
                && !claimed.contains(kept[k].id@) by {
                if k < kept0.len() {
                    assert(kept[k] == kept0[k]);
                    let q = choose|q: int| 0 <= q < cl0.len() && cl0[q] == kept0[k].id@;
                    assert(cl[q] == kept0[k].id@);
                } else {
                    assert(cl[cl0.len() as int] == e.id@);
                    if claimed.contains(e.id@) {
                        assert(cl0.contains(e.id@));
                    }
                }
            }
            assert forall|x: AvailableType| kept.contains(x) implies exists|j: int| 0 <= j < s.len() && x == avail(s[j]) by {
                let k = choose|k: int| 0 <= k < kept.len() && kept[k] == x;
                if k < kept0.len() {
                    assert(kept0[k] == x);
                    assert(kept0.contains(x));
                    let j = choose|j: int| 0 <= j < p.len() && x == avail(p[j]);
                    assert(x == avail(s[j]));
                } else {
                    assert(x == avail(s[s.len() - 1]));
                }
            }
            assert forall|i: int, j: int| 0 <= i < j < kept.len() implies kept[i].id@ != kept[j].id@ by {
                if j == kept0.len() {
                    assert(cl0.contains(kept0[i].id@));
                } else {
                    assert(kept[i] == kept0[i] && kept[j] == kept0[j]);
                }
            }
            if listed_ids_distinct(s) {
                assert(listed_ids_distinct(p));
                assert forall|j: int| 0 <= j < s.len() && !claimed.contains(s[j].id@) implies kept.contains(
                    avail(#[trigger] s[j]),
                ) by {
                    if j < p.len() {
                        assert(kept0.contains(avail(p[j])));
                        let k = choose|k: int| 0 <= k < kept0.len() && kept0[k] == avail(p[j]);
                        assert(kept[k] == avail(s[j]));
                    } else {
                        assert(kept[kept0.len() as int] == avail(s[j]));
                    }
                }
            }
        } else {
            assert forall|y: Seq<char>| #[trigger] cl0.contains(y) implies claimed.contains(y) || exists|j: int|
                0 <= j < s.len() && s[j].id@ == y by {
                if !claimed.contains(y) {
                    let j = choose|j: int| 0 <= j < p.len() && p[j].id@ == y;
                    assert(s[j].id@ == y);
                }
            }
            assert forall|x: AvailableType| kept0.contains(x) implies exists|j: int| 0 <= j < s.len() && x == avail(s[j]) by {
                let j = choose|j: int| 0 <= j < p.len() && x == avail(p[j]);
                assert(x == avail(s[j]));
            }
            if listed_ids_distinct(s) {
                assert(listed_ids_distinct(p));
                assert forall|j: int| 0 <= j < s.len() && !claimed.contains(s[j].id@) implies kept0.contains(
                    avail(#[trigger] s[j]),
                ) by {
                    if j < p.len() {
                        assert(kept0.contains(avail(p[j])));
                    } else {
                        // the last id is claimed already, so it is claimed or an earlier entry's
                        if !claimed.contains(e.id@) {
                            let q = choose|q: int| 0 <= q < p.len() && p[q].id@ == e.id@;
                            assert(s[q].id@ == s[j].id@);
                        }
                    }
                }
            }
        }
    }
}


proof fn lemma_discover_distinct(dirs: Seq<Seq<ListedSchema>>, claimed: Seq<Seq<char>>)
    ensures
        ids_distinct(discover_spec(dirs, claimed).0),
        forall|k: int|
            0 <= k < discover_spec(dirs, claimed).0.len() ==> !claimed.contains(
                #[trigger] discover_spec(dirs, claimed).0[k].id@,
            ),
    decreases dirs.len(),
{
    if dirs.len() > 0 {
        let s = sort_by_path(dirs[0]);
        if dir_conflicts(s).len() > 0 {
            lemma_discover_distinct(dirs.drop_first(), claimed);
        } else {
            let (kept, cl) = commit(s, claimed);
            lemma_commit(s, claimed);
            lemma_discover_distinct(dirs.drop_first(), cl);
            let a = kept;
            let b = discover_spec(dirs.drop_first(), cl).0;
            let t = a + b;
            assert(discover_spec(dirs, claimed).0 == t);
            assert forall|k: int| 0 <= k < a.len() implies cl.contains(#[trigger] a[k].id@) && !claimed.contains(
                a[k].id@,
            ) by {
                assert(a.contains(a[k]));
                assert(kept.contains(a[k]));
                let q = choose|q: int| 0 <= q < kept.len() && kept[q] == a[k];
            }
            assert forall|i: int, j: int| 0 <= i < j < t.len() implies t[i].id@ != t[j].id@ by {
                if j < a.len() {
                    assert(t[i] == a[i] && t[j] == a[j]);
                } else if i < a.len() {
                    assert(t[i] == a[i]);
                    assert(t[j] == b[j - a.len()]);
                } else {
                    assert(t[i] == b[i - a.len()] && t[j] == b[j - a.len()]);
                }
            }
            assert forall|k: int| 0 <= k < t.len() implies !claimed.contains(#[trigger] t[k].id@) by {
                if k < a.len() {
                    assert(t[k] == a[k]);
                } else {
                    assert(t[k] == b[k - a.len()]);
                }
            }
        }
    }
}

proof fn lemma_discover_listed(dirs: Seq<Seq<ListedSchema>>, claimed: Seq<Seq<char>>, i: int, x: ListedSchema)
    requires
        0 <= i < dirs.len(),
        dirs[i].contains(x),
        dir_conflicts(sort_by_path(dirs[i])).len() == 0,
        !claimed.contains(x.id@),
        forall|d: int, j: int| 0 <= d < i && 0 <= j < dirs[d].len() ==> dirs[d][j].id@ != x.id@,
    ensures
        discover_spec(dirs, claimed).0.contains(avail(x)),
    decreases dirs.len(),
{
    let s = sort_by_path(dirs[0]);
    let rest = dirs.drop_first();
    lemma_sort_by_path_members(dirs[0]);
    if i == 0 {
        let (kept, cl) = commit(s, claimed);
        lemma_no_conflicts(s);
        lemma_commit(s, claimed);
        assert(s.contains(x));
        let j = choose|j: int| 0 <= j < s.len() && s[j] == x;
        assert(kept.contains(avail(s[j])));
        let a = kept;
        assert(a.contains(avail(x)));
        let k = choose|k: int| 0 <= k < a.len() && a[k] == avail(x);
        let t = a + discover_spec(rest, cl).0;
        assert(t[k] == avail(x));
    } else {
        assert forall|d: int, j: int| 0 <= d < i - 1 && 0 <= j < rest[d].len() implies rest[d][j].id@ != x.id@ by {
            assert(rest[d] == dirs[d + 1]);
        }
        assert(rest[i - 1] == dirs[i]);
        if dir_conflicts(s).len() > 0 {
            lemma_discover_listed(rest, claimed, i - 1, x);
        } else {
            let (kept, cl) = commit(s, claimed);
            lemma_commit(s, claimed);
            if cl.contains(x.id@) {
                let j = choose|j: int| 0 <= j < s.len() && s[j].id@ == x.id@;
                assert(s.contains(s[j]));
                assert(dirs[0].contains(s[j]));
                let q = choose|q: int| 0 <= q < dirs[0].len() && dirs[0][q] == s[j];
                assert(dirs[0][q].id@ != x.id@);
                assert(false);
            }
            lemma_discover_listed(rest, cl, i - 1, x);
            let a = kept;
            let b = discover_spec(rest, cl).0;
            let k = choose|k: int| 0 <= k < b.len() && b[k] == avail(x);
            assert((a + b)[a.len() + k] == avail(x));
        }
    }
}

/// Each id is listed at most once: an id that a higher-priority directory
/// already supplies is not listed again from a lower-priority one (nor
/// twice from one directory).
pub proof fn law_each_id_listed_once(dirs: Seq<Seq<ListedSchema>>)
    ensures
        ids_distinct(sort_by_id(discover_spec(dirs, Seq::empty()).0)),
{
    lemma_discover_distinct(dirs, Seq::empty());
    law_sort_by_id(discover_spec(dirs, Seq::empty()).0);
}

/// The discovered types form one list in id order, whatever directories
/// they come from.
pub proof fn law_listed_in_id_order(dirs: Seq<Seq<ListedSchema>>)
    ensures
        ({
            let t = sort_by_id(discover_spec(dirs, Seq::empty()).0);
            forall|i: int, j: int| 0 <= i < j < t.len() ==> !text_lt(t[j].id@, t[i].id@)
        }),
{
    law_sort_by_id(discover_spec(dirs, Seq::empty()).0);
}

/// The highest-priority directory wins: a schema file `x` in a directory
/// without conflicts is listed when no higher-priority directory has a
/// file with its id; by the law above, a file with the same id in a
/// lower-priority directory is then not listed.
pub proof fn law_highest_priority_wins(dirs: Seq<Seq<ListedSchema>>, i: int, x: ListedSchema)
    requires
        0 <= i < dirs.len(),
        dirs[i].contains(x),
        dir_conflicts(sort_by_path(dirs[i])).len() == 0,
        forall|d: int, j: int| 0 <= d < i && 0 <= j < dirs[d].len() ==> dirs[d][j].id@ != x.id@,
    ensures
        sort_by_id(discover_spec(dirs, Seq::empty()).0).contains(avail(x)),
{
    lemma_discover_listed(dirs, Seq::empty(), i, x);
    law_sort_by_id(discover_spec(dirs, Seq::empty()).0);
}

} // verus!
