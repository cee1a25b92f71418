use vstd::prelude::*;
use vstd::string::*;
use crate::text::text_eq;
use path_absolutize::Absolutize;

verus! {

broadcast use vstd::std_specs::vec::group_vec_axioms, vstd::seq::group_seq_axioms;

/// Text that opens a dynamic-import call.
pub const IMPORT_CALL: &'static str = "import(";

/// Extension given to module paths, with its dot.
pub const SOURCE_EXT: &'static str = ".ts";

/// Suffix, before the extension, of a conventional paired routing file.
pub const ROUTING_SUFFIX: &'static str = "-routing.module";

/// Whether `c` opens a string literal.
pub open spec fn is_quote(c: char) -> bool {
    c == '\'' || c == '"' || c == '`'
}

/// Whether a dynamic-import call with a quoted argument starts at `i`.
pub open spec fn import_at(s: Seq<char>, i: int) -> bool {
    0 <= i && i + IMPORT_CALL@.len() < s.len() && s.subrange(i, i + IMPORT_CALL@.len())
        == IMPORT_CALL@ && is_quote(s[i + IMPORT_CALL@.len()])
}

/// The first position at or after `from` where a dynamic-import call starts.
pub open spec fn import_from(s: Seq<char>, from: int) -> Option<int>
    decreases s.len() - from,
{
    if from < 0 || from >= s.len() {
        None
    } else if import_at(s, from) {
        Some(from)
    } else {
        import_from(s, from + 1)
    }
}

/// The first position at or after `from` that holds `c`.
pub open spec fn char_from(s: Seq<char>, c: char, from: int) -> Option<int>
    decreases s.len() - from,
{
    if from < 0 || from >= s.len() {
        None
    } else if s[from] == c {
        Some(from)
    } else {
        char_from(s, c, from + 1)
    }
}

/// The quoted argument of the first dynamic-import call in `s`, when that
/// argument's closing quote is present.
pub open spec fn import_target_of(s: Seq<char>) -> Option<Seq<char>> {
    match import_from(s, 0) {
        Some(i) => {
            let open = i + IMPORT_CALL@.len();
            match char_from(s, s[open], open + 1) {
                Some(j) => Some(s.subrange(open + 1, j)),
                None => None,
            }
        },
        None => None,
    }
}

/// A position found by `import_from` starts a dynamic-import call.
proof fn lemma_import_from(s: Seq<char>, from: int)
    ensures
        match import_from(s, from) {
            Some(i) => import_at(s, i),
            None => true,
        },
    decreases s.len() - from,
{
    if 0 <= from < s.len() && !import_at(s, from) {
        lemma_import_from(s, from + 1);
    }
}

/// A position found by `char_from` lies at or after `from` and holds `c`.
proof fn lemma_char_from(s: Seq<char>, c: char, from: int)
    ensures
        match char_from(s, c, from) {
            Some(j) => from <= j < s.len() && s[j] == c,
            None => true,
        },
    decreases s.len() - from,
{
    if 0 <= from < s.len() && s[from] != c {
        lemma_char_from(s, c, from + 1);
    }
}

/// The first position at or after `from` where a dynamic-import call starts.
fn find_import(s: &str, n: usize, from: usize) -> (r: Option<usize>)
    requires
        n == s@.len(),
        from <= n,
    ensures
        match r {
            Some(i) => import_from(s@, from as int) == Some(i as int),
            None => import_from(s@, from as int) is None,
        },
{
    let m = IMPORT_CALL.unicode_len();
    let mut i: usize = from;
    while i < n
        invariant
            from <= i <= n,
            n == s@.len(),
            m == IMPORT_CALL@.len(),
            import_from(s@, from as int) == import_from(s@, i as int),
        decreases n - i,
    {
        if m < n - i {
            if text_eq(s.substring_char(i, i + m), IMPORT_CALL) {
                if is_quote_char(s.get_char(i + m)) {
                    return Some(i);
                }
            }
        }
        i = i + 1;
    }
    None
}

/// The first position at or after `from` that holds `c`.
fn find_char(s: &str, n: usize, c: char, from: usize) -> (r: Option<usize>)
    requires
        n == s@.len(),
        from <= n,
    ensures
        match r {
            Some(i) => char_from(s@, c, from as int) == Some(i as int),
            None => char_from(s@, c, from as int) is None,
        },
{
    let mut i: usize = from;
    while i < n
        invariant
            from <= i <= n,
            n == s@.len(),
            char_from(s@, c, from as int) == char_from(s@, c, i as int),
        decreases n - i,
    {
        if s.get_char(i) == c {
            return Some(i);
        }
        i = i + 1;
    }
    None
}

/// Whether `c` opens a string literal.
pub fn is_quote_char(c: char) -> (r: bool)
    ensures
        r == is_quote(c),
{
    c == '\'' || c == '"' || c == '`'
}

/// The module path named by the first dynamic-import call in a lazy-load
/// text; `None` when the text holds no such call.
pub fn import_target(load_children_str: &str) -> (r: Option<String>)
    ensures
        match r {
            Some(t) => import_target_of(load_children_str@) == Some(t@),
            None => import_target_of(load_children_str@) is None,
        },
{
    let n = load_children_str.unicode_len();
    match find_import(load_children_str, n, 0) {
        Some(i) => {
            proof {
                lemma_import_from(load_children_str@, 0);
            }
            let open = i + IMPORT_CALL.unicode_len();
            let q = load_children_str.get_char(open);
            match find_char(load_children_str, n, q, open + 1) {
                Some(j) => {
                    proof {
                        lemma_char_from(load_children_str@, q, open + 1);
                    } Some(load_children_str.substring_char(open + 1, j).to_owned())
                },
                None => None,
            }
        },
        None => None,
    }
}

/// Separator between path components.
pub const SEP: &'static str = "/";

/// What `path_absolutize` makes of a path: `.`, `..` and repeated separators
/// resolved lexically.
pub uninterp spec fn absolutized(p: Seq<char>) -> Seq<char>;

/// Relies on path_absolutize's `Absolutize::absolutize_from`, with `/` as the
/// working directory: the result depends on the path alone, and the call
/// always returns `Ok` with a path that starts at the root.
#[verifier::external_body]
fn absolutize(p: &str) -> (r: String)
    ensures
        r@ == absolutized(p@),
        r@.len() > 0 && r@[0] == '/',
{
    match std::path::Path::new(p).absolutize_from("/") {
        Ok(a) => a.to_string_lossy().into_owned(),
        Err(_) => p.to_owned(),
    }
}

/// The last position before `end` that holds `c`.
pub open spec fn last_before(s: Seq<char>, c: char, end: int) -> Option<int>
    decreases end,
{
    if end <= 0 || end > s.len() {
        None
    } else if s[end - 1] == c {
        Some(end - 1)
    } else {
        last_before(s, c, end - 1)
    }
}

/// The directory part of a path: all before its last separator.
pub open spec fn dir_part(p: Seq<char>) -> Seq<char> {
    match last_before(p, '/', p.len() as int) {
        Some(i) => p.subrange(0, i),
        None => Seq::empty(),
    }
}

/// The last component of a path: all after its last separator.
pub open spec fn name_part(p: Seq<char>) -> Seq<char> {
    match last_before(p, '/', p.len() as int) {
        Some(i) => p.subrange(i + 1, p.len() as int),
        None => p,
    }
}

/// A file name without its extension: all before its last dot, unless that
/// dot opens the name.
pub open spec fn stem_part(name: Seq<char>) -> Seq<char> {
    match last_before(name, '.', name.len() as int) {
        Some(i) => if i > 0 {
            name.subrange(0, i)
        } else {
            name
        },
        None => name,
    }
}

/// `rel` taken relative to the directory `dir`; an absolute `rel` stands
/// for itself.
pub open spec fn join_path(dir: Seq<char>, rel: Seq<char>) -> Seq<char> {
    if rel.len() > 0 && rel[0] == '/' {
        rel
    } else {
        dir + SEP@ + rel
    }
}

/// The base candidate for a lazy-load text declared in `parent`: its import
/// target joined onto the parent file's directory.
pub open spec fn base_of(raw: Seq<char>, parent: Seq<char>) -> Option<Seq<char>> {
    match import_target_of(raw) {
        Some(t) => Some(join_path(dir_part(parent), t)),
        None => None,
    }
}

/// The files that may hold the routes of `base`, in the order they are
/// tried: the module file itself, its paired routing file beside it, and,
/// when `base` is a directory, the routing file named after it inside it.
pub open spec fn candidates_of(base: Seq<char>, base_is_dir: bool) -> Seq<Seq<char>> {
    let direct = absolutized(base + SOURCE_EXT@);
    let paired = absolutized(
        dir_part(base) + SEP@ + stem_part(name_part(base)) + ROUTING_SUFFIX@ + SOURCE_EXT@,
    );
    let inner = absolutized(base + SEP@ + name_part(base) + ROUTING_SUFFIX@ + SOURCE_EXT@);
    if base_is_dir {
        seq![direct, paired, inner]
    } else {
        seq![direct, paired]
    }
}

/// The last position of `c` in `s`.
fn find_last(s: &str, c: char) -> (r: Option<usize>)
    ensures
        match r {
            Some(i) => last_before(s@, c, s@.len() as int) == Some(i as int) && i < s@.len(),
            None => last_before(s@, c, s@.len() as int) is None,
        },
{
    let n = s.unicode_len();
    let mut end: usize = n;
    while end > 0
        invariant
            end <= n,
            n == s@.len(),
            last_before(s@, c, n as int) == last_before(s@, c, end as int),
        decreases end,
    {
        if s.get_char(end - 1) == c {
            return Some(end - 1);
        }
        end = end - 1;
    }
    None
}

/// The directory part of a path.
pub fn dir_of(p: &str) -> (r: String)
    ensures
        r@ == dir_part(p@),
{
    match find_last(p, '/') {
        Some(i) => p.substring_char(0, i).to_owned(),
        None => String::new(),
    }
}

/// The last component of a path.
pub fn name_of(p: &str) -> (r: String)
    ensures
        r@ == name_part(p@),
{
    let n = p.unicode_len();
    match find_last(p, '/') {
        Some(i) => p.substring_char(i + 1, n).to_owned(),
        None => p.to_owned(),
    }
}

/// A file name without its extension.
pub fn stem_of(name: &str) -> (r: String)
    ensures
        r@ == stem_part(name@),
{
    match find_last(name, '.') {
        Some(i) => if i > 0 {
            name.substring_char(0, i).to_owned()
        } else {
            name.to_owned()
        },
        None => name.to_owned(),
    }
}

/// `rel` taken relative to the directory `dir`.
pub fn join(dir: &str, rel: &str) -> (r: String)
    ensures
        r@ == join_path(dir@, rel@),
{
    if rel.unicode_len() > 0 && rel.get_char(0) == '/' {
        rel.to_owned()
    } else {
        let mut r = dir.to_owned();
        r.append(SEP);
        r.append(rel);
        r
    }
}

/// The base candidate for a lazy-load text declared in `parent_file`;
/// `None` when the text holds no dynamic-import call.
pub fn candidate_base(load_children_str: &str, parent_file: &str) -> (r: Option<String>)
    ensures
        match r {
            Some(b) => base_of(load_children_str@, parent_file@) == Some(b@),
            None => base_of(load_children_str@, parent_file@) is None,
        },
{
    match import_target(load_children_str) {
        Some(t) => {
            let dir = dir_of(parent_file);
            Some(join(dir.as_str(), t.as_str()))
        },
        None => None,
    }
}

/// The files that may hold the routes of `base`, in the order they are
/// tried.
pub fn candidates(base: &str, base_is_dir: bool) -> (r: Vec<String>)
    ensures
        r@.map_values(|p: String| p@) == candidates_of(base@, base_is_dir),
{
    let name = name_of(base);
    let mut direct = base.to_owned();
    direct.append(SOURCE_EXT);
    let mut paired = dir_of(base);
    paired.append(SEP);
    let stem = stem_of(name.as_str());
    paired.append(stem.as_str());
    paired.append(ROUTING_SUFFIX);
    paired.append(SOURCE_EXT);
    let mut r: Vec<String> = Vec::new();
    r.push(absolutize(direct.as_str()));
    r.push(absolutize(paired.as_str()));
    if base_is_dir {
        let mut inner = base.to_owned();
        inner.append(SEP);
        inner.append(name.as_str());
        inner.append(ROUTING_SUFFIX);
        inner.append(SOURCE_EXT);
        r.push(absolutize(inner.as_str()));
    }
    assert(r@.map_values(|p: String| p@) =~= candidates_of(base@, base_is_dir));
    r
}

/// The first candidate whose flag is set: `present[i]` tells whether
/// `cands[i]` names an existing file.
pub fn first_existing(cands: &Vec<String>, present: &Vec<bool>) -> (r: Option<String>)
    requires
        cands.len() == present.len(),
    ensures
        match r {
            Some(p) => exists|i: int|
                0 <= i < cands.len() && present[i] && cands[i]@ == p@ && forall|k: int|
                    0 <= k < i ==> !present[k],
            None => forall|k: int| 0 <= k < cands.len() ==> !present[k],
        },
{
    let mut i: usize = 0;
    while i < cands.len()
        invariant
            i <= cands.len(),
            cands.len() == present.len(),
            forall|k: int| 0 <= k < i ==> !present[k],
        decreases cands.len() - i,
    {
        if present[i] {
            return Some(cands[i].clone());
        }
        i = i + 1;
    }
    None
}

} // verus!
