//! Where the application keeps its files.

use vstd::prelude::*;

verus! {

/// A path with one more component, which is not absolute.
pub open spec fn below(base: Seq<char>, name: Seq<char>) -> Seq<char> {
    if base.len() == 0 {
        name
    } else if base.last() == '/' {
        base + name
    } else {
        base + "/"@ + name
    }
}

/// A path below another ends in the name and begins with the other, with one
/// slash at least between them; below nothing it is the name.
pub proof fn path_is_base_and_name(base: Seq<char>, name: Seq<char>)
    ensures
        base.len() == 0 ==> below(base, name) == name,
        base.is_prefix_of(below(base, name)),
        name.is_suffix_of(below(base, name)),
        base.len() > 0 ==> below(base, name).len() > name.len() && below(base, name)[below(
            base,
            name,
        ).len() - name.len() - 1] == '/',
        below(base, name).len() <= base.len() + 1 + name.len(),
{
    reveal_strlit("/");
    let p = below(base, name);
    assert(p.subrange(p.len() - name.len(), p.len() as int) =~= name);
    assert(p.subrange(0, base.len() as int) =~= base);
}

/// A path with one more component, which is not absolute.
pub fn join_path(base: &str, name: &str) -> (r: String)
    ensures
        r@ == below(base@, name@),
{
    let n: usize = base.unicode_len();
    let mut s = base.to_owned();
    if n == 0 {
        assert(base@ + name@ =~= name@);
    } else if base.get_char(n - 1) != '/' {
        s.append("/");
    }
    s.append(name);
    s
}

/// The directory of all applications' files, given the home directory.
pub fn support_base(home: Option<&str>) -> (r: String)
    ensures
        r@ == below(
            match home {
                Some(h) => h@,
                None => "."@,
            },
            "Library/Application Support"@,
        ),
{
    match home {
        Some(h) => join_path(h, "Library/Application Support"),
        None => join_path(".", "Library/Application Support"),
    }
}

/// Where the files are, and the directory to rename to that first.
#[derive(Debug)]
pub struct SupportDir {
    pub dir: String,
    pub rename_from: Option<String>,
}

/// The application's directory under `base`. A directory under the name that
/// the application once had is renamed, unless there is one under the present
/// name: that one is never touched.
pub fn resolve(base: &str, present_exists: bool, former_exists: bool) -> (r: SupportDir)
    ensures
        r.dir@ == below(base@, "paddock"@),
        r.rename_from.deep_view() == if !present_exists && former_exists {
            Some(below(base@, "tetro"@))
        } else {
            None
        },
{
    let rename_from = if !present_exists && former_exists {
        Some(join_path(base, "tetro"))
    } else {
        None
    };
    SupportDir { dir: join_path(base, "paddock"), rename_from }
}

/// The path that was set, else a file in the application's directory.
pub open spec fn set_or_below(set: Option<Seq<char>>, dir: Seq<char>, file: Seq<char>) -> Seq<char> {
    match set {
        Some(p) => p,
        None => below(dir, file),
    }
}

} // verus!
