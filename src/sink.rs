//! Destinations for the weathered scene: where its OBJ and MTL files go.
//!
//! Paths use `/` as separator. A path's file name is what follows its last
//! `/`, its parent what precedes it, and its extension what follows the
//! last `.` of the file name, unless that `.` opens the file name.
use vstd::prelude::*;

verus! {

/// Declares `std::io::Error`, which `Error::IO` carries unopened.
#[verifier::external_type_specification]
#[verifier::external_body]
pub struct ExIoError(std::io::Error);

/// Why a scene could not be written.
pub enum Error {
    IO(std::io::Error),
}

impl From<std::io::Error> for Error {
    fn from(err: std::io::Error) -> (r: Error) {
        Error::IO(err)
    }
}

impl vstd::std_specs::convert::FromSpecImpl<std::io::Error> for Error {
    open spec fn obeys_from_spec() -> bool {
        true
    }

    open spec fn from_spec(err: std::io::Error) -> Error {
        Error::IO(err)
    }
}

/// The index of the last `c` in `s`, or -1 when there is none.
pub open spec fn last_index_of(s: Seq<char>, c: char) -> int
    decreases s.len(),
{
    if s.len() == 0 {
        -1
    } else if s.last() == c {
        s.len() - 1
    } else {
        last_index_of(s.drop_last(), c)
    }
}

pub open spec fn file_name_of(p: Seq<char>) -> Seq<char> {
    p.subrange(last_index_of(p, '/') + 1, p.len() as int)
}

/// The parent of a path: what precedes its last `/`, or the root `/` when
/// that is its only `/` and opens it, or nothing when it has no `/`.
pub open spec fn parent_of(p: Seq<char>) -> Seq<char> {
    let k = last_index_of(p, '/');
    if k < 0 {
        Seq::empty()
    } else if k == 0 {
        p.subrange(0, 1)
    } else {
        p.subrange(0, k)
    }
}

pub open spec fn extension_of(p: Seq<char>) -> Option<Seq<char>> {
    let f = file_name_of(p);
    let d = last_index_of(f, '.');
    if d <= 0 {
        None
    } else {
        Some(f.subrange(d + 1, f.len() as int))
    }
}

proof fn lemma_last_index_bounds(s: Seq<char>, c: char)
    ensures
        -1 <= last_index_of(s, c) < s.len(),
        last_index_of(s, c) >= 0 ==> s[last_index_of(s, c)] == c,
    decreases s.len(),
{
    if s.len() > 0 {
        lemma_last_index_bounds(s.drop_last(), c);
    }
}

/// The index of the last `c` in `s`.
fn find_last(s: &str, c: char) -> (r: Option<usize>)
    ensures
        r.is_some() <==> last_index_of(s@, c) >= 0,
        r.is_some() ==> r.unwrap() == last_index_of(s@, c),
{
    let n = s.unicode_len();
    let mut found: Option<usize> = None;
    let mut i: usize = 0;
    while i < n
        invariant
            n == s@.len(),
            i <= n,
            found.is_some() <==> last_index_of(s@.subrange(0, i as int), c) >= 0,
            found.is_some() ==> found.unwrap() == last_index_of(s@.subrange(0, i as int), c),
        decreases n - i,
    {
        assert(s@.subrange(0, i + 1).drop_last() =~= s@.subrange(0, i as int));
        if s.get_char(i) == c {
            found = Some(i);
        }
        i = i + 1;
    }
    assert(s@.subrange(0, n as int) =~= s@);
    found
}

/// The file name of a path.
pub fn file_name(p: &str) -> (r: &str)
    ensures
        r@ == file_name_of(p@),
{
    proof {
        lemma_last_index_bounds(p@, '/');
    }
    let n = p.unicode_len();
    match find_last(p, '/') {
        Some(k) => p.substring_char(k + 1, n),
        None => p.substring_char(0, n),
    }
}

/// The parent directory of a path: `/` for a path right under the root,
/// empty when the path has no `/`.
pub fn parent(p: &str) -> (r: &str)
    ensures
        r@ == parent_of(p@),
{
    proof {
        lemma_last_index_bounds(p@, '/');
    }
    match find_last(p, '/') {
        Some(k) => {
            if k == 0 {
                p.substring_char(0, 1)
            } else {
                p.substring_char(0, k)
            }
        },
        None => p.substring_char(0, 0),
    }
}

/// The extension of a path's file name, if it has one.
pub fn extension(p: &str) -> (r: Option<&str>)
    ensures
        r.is_some() == extension_of(p@).is_some(),
        r.is_some() ==> r.unwrap()@ == extension_of(p@).unwrap(),
{
    let f = file_name(p);
    let n = f.unicode_len();
    proof {
        lemma_last_index_bounds(f@, '.');
    }
    match find_last(f, '.') {
        Some(d) => {
            if d == 0 {
                None
            } else {
                Some(f.substring_char(d + 1, n))
            }
        },
        None => None,
    }
}

/// Whether a path names an OBJ file: its extension is `obj`.
pub open spec fn is_obj_path(p: Seq<char>) -> bool {
    extension_of(p) == Some(seq!['o', 'b', 'j'])
}

/// Whether a path names an MTL file beside the OBJ file at `obj`.
pub open spec fn is_mtl_path_beside(p: Seq<char>, obj: Seq<char>) -> bool {
    &&& extension_of(p) == Some(seq!['m', 't', 'l'])
    &&& parent_of(p) == parent_of(obj)
}

/// Writes the materials of the scene into an MTL file.
pub struct MtlSink {
    pub mtl_path: String,
}

impl MtlSink {
    pub fn new(mtl_path: &str) -> (r: MtlSink)
        ensures
            r.mtl_path@ == mtl_path@,
    {
        MtlSink { mtl_path: mtl_path.to_owned() }
    }

    pub fn mtl_path(&self) -> (r: &str)
        ensures
            r@ == self.mtl_path@,
    {
        self.mtl_path.as_str()
    }
}

/// Writes the entities of the scene into an OBJ file, which names its MTL
/// library by file name when there is one.
pub struct ObjSink {
    pub obj_path: String,
    pub mtl_lib: Option<String>,
}

impl ObjSink {
    /// An OBJ sink for `obj_path`, and for an MTL library at `mtl_path` in
    /// the same directory when one is given.
    pub fn new(obj_path: &str, mtl_path: Option<&str>) -> (r: ObjSink)
        requires
            is_obj_path(obj_path@),
            mtl_path.is_some() ==> is_mtl_path_beside(mtl_path.unwrap()@, obj_path@),
        ensures
            r.obj_path@ == obj_path@,
            r.mtl_lib.is_some() == mtl_path.is_some(),
            mtl_path.is_some() ==> r.mtl_lib.unwrap()@ == file_name_of(mtl_path.unwrap()@),
    {
        let mtl_lib = match mtl_path {
            Some(m) => Some(file_name(m).to_owned()),
            None => None,
        };
        ObjSink { obj_path: obj_path.to_owned(), mtl_lib }
    }

    pub fn obj_path(&self) -> (r: &str)
        ensures
            r@ == self.obj_path@,
    {
        self.obj_path.as_str()
    }

    /// The file name of the MTL library, if the OBJ file names one.
    pub fn mtl_lib(&self) -> (r: Option<&str>)
        ensures
            r.is_some() == self.mtl_lib.is_some(),
            r.is_some() ==> r.unwrap()@ == self.mtl_lib.unwrap()@,
    {
        match &self.mtl_lib {
            Some(m) => Some(m.as_str()),
            None => None,
        }
    }
}

} // verus!
