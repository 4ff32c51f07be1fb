use vstd::prelude::*;

verus! {

/// What a path means: its components, whether the first of them is a drive
/// prefix (such as `C:`), and whether the path starts at the root.
pub struct PathView {
    pub prefixed: bool,
    pub absolute: bool,
    pub parts: Seq<Seq<char>>,
}

impl PathView {
    /// The drive prefix, where there is one.
    pub open spec fn prefix(self) -> Seq<char> {
        if self.prefixed && self.parts.len() > 0 {
            self.parts[0]
        } else {
            Seq::empty()
        }
    }

    /// The components after the prefix.
    pub open spec fn names(self) -> Seq<Seq<char>> {
        if self.prefixed && self.parts.len() > 0 {
            self.parts.skip(1)
        } else {
            self.parts
        }
    }

    /// The path with one more component at its end.
    pub open spec fn joined(self, name: Seq<char>) -> PathView {
        PathView { prefixed: self.prefixed, absolute: self.absolute, parts: self.parts.push(name) }
    }

    /// The path without its last component, when it has one after the prefix.
    pub open spec fn parent(self) -> Option<PathView> {
        if self.names().len() == 0 {
            None
        } else {
            Some(
                PathView {
                    prefixed: self.prefixed,
                    absolute: self.absolute,
                    parts: self.parts.drop_last(),
                },
            )
        }
    }
}

/// A file-system path as the library handles it: an optional drive prefix,
/// an optional root and the names of its components (a separator never
/// stands inside a component). The prefix, where there is one, is held as the
/// first component.
#[derive(Clone, Debug, PartialEq, Eq)]
pub struct FsPath {
    prefixed: bool,
    absolute: bool,
    parts: Vec<String>,
}

/// The views of a list of names.
pub open spec fn names_view(v: Seq<String>) -> Seq<Seq<char>> {
    v.map_values(|s: String| s@)
}

impl View for FsPath {
    type V = PathView;

    closed spec fn view(&self) -> PathView {
        PathView { prefixed: self.prefixed, absolute: self.absolute, parts: names_view(self.parts@) }
    }
}

/// A copy of a list of names.
fn copy_names(v: &Vec<String>) -> (r: Vec<String>)
    ensures
        names_view(r@) == names_view(v@),
{
    let mut r: Vec<String> = Vec::new();
    let mut i: usize = 0;
    while i < v.len()
        invariant
            i <= v.len(),
            r.len() == i,
            forall|j: int| 0 <= j < i ==> r@[j]@ == v@[j]@,
        decreases v.len() - i,
    {
        r.push(v[i].clone());
        i = i + 1;
    }
    assert(names_view(r@) =~= names_view(v@));
    r
}

impl FsPath {
    /// A path without a drive prefix.
    pub fn new(absolute: bool, parts: Vec<String>) -> (r: FsPath)
        ensures
            !r@.prefixed,
            r@.absolute == absolute,
            r@.parts == names_view(parts@),
    {
        FsPath { prefixed: false, absolute, parts }
    }

    /// A path that starts with a drive prefix.
    pub fn with_prefix(prefix: String, absolute: bool, names: Vec<String>) -> (r: FsPath)
        ensures
            r@.prefixed,
            r@.absolute == absolute,
            r@.parts == seq![prefix@] + names_view(names@),
            r@.prefix() == prefix@,
            r@.names() == names_view(names@),
    {
        let mut parts: Vec<String> = Vec::new();
        parts.push(prefix);
        let mut i: usize = 0;
        while i < names.len()
            invariant
                i <= names.len(),
                parts.len() == i + 1,
                parts@[0]@ == prefix@,
                forall|j: int| 0 <= j < i ==> parts@[j + 1]@ == names@[j]@,
            decreases names.len() - i,
        {
            parts.push(names[i].clone());
            i = i + 1;
        }
        let r = FsPath { prefixed: true, absolute, parts };
        assert(r@.parts =~= seq![prefix@] + names_view(names@));
        assert(r@.parts.skip(1) =~= names_view(names@));
        r
    }

    /// The root directory itself.
    pub fn root() -> (r: FsPath)
        ensures
            !r@.prefixed,
            r@.absolute,
            r@.parts == Seq::<Seq<char>>::empty(),
    {
        let r = FsPath { prefixed: false, absolute: true, parts: Vec::new() };
        assert(r@.parts =~= Seq::<Seq<char>>::empty());
        r
    }

    pub fn is_prefixed(&self) -> (r: bool)
        ensures
            r == self@.prefixed,
    {
        self.prefixed
    }

    pub fn is_absolute(&self) -> (r: bool)
        ensures
            r == self@.absolute,
    {
        self.absolute
    }

    pub fn parts(&self) -> (r: &Vec<String>)
        ensures
            names_view(r@) == self@.parts,
    {
        &self.parts
    }

    pub fn len(&self) -> (r: usize)
        ensures
            r == self@.parts.len(),
    {
        self.parts.len()
    }

    /// The path with one more component at its end.
    pub fn join(&self, name: &String) -> (r: FsPath)
        ensures
            r@ == self@.joined(name@),
    {
        let mut parts = copy_names(&self.parts);
        parts.push(name.clone());
        let r = FsPath { prefixed: self.prefixed, absolute: self.absolute, parts };
        assert(r@.parts =~= self@.parts.push(name@));
        r
    }

    /// The path without its last component; none for the root, for a bare
    /// drive prefix and for the empty path.
    pub fn parent(&self) -> (r: Option<FsPath>)
        ensures
            r matches Some(q) ==> self@.parent() == Some(q@),
            r is None ==> self@.parent() is None,
    {
        if self.parts.len() == 0 || (self.prefixed && self.parts.len() == 1) {
            None
        } else {
            let mut parts = copy_names(&self.parts);
            parts.pop();
            let r = FsPath { prefixed: self.prefixed, absolute: self.absolute, parts };
            assert(r@.parts =~= self@.parts.drop_last());
            Some(r)
        }
    }

    /// A copy of the path.
    pub fn duplicate(&self) -> (r: FsPath)
        ensures
            r@ == self@,
    {
        FsPath { prefixed: self.prefixed, absolute: self.absolute, parts: copy_names(&self.parts) }
    }

    /// Two paths are equal when they agree on the prefix, the root and every
    /// component.
    pub fn same_as(&self, other: &FsPath) -> (r: bool)
        ensures
            r == (self@ == other@),
    {
        if self.absolute != other.absolute || self.prefixed != other.prefixed {
            return false;
        }
        if self.parts.len() != other.parts.len() {
            assert(self@.parts.len() != other@.parts.len());
            return false;
        }
        let mut i: usize = 0;
        while i < self.parts.len()
            invariant
                i <= self.parts.len(),
                self.parts.len() == other.parts.len(),
                self.absolute == other.absolute,
                self.prefixed == other.prefixed,
                forall|j: int| 0 <= j < i ==> self.parts@[j]@ == other.parts@[j]@,
            decreases self.parts.len() - i,
        {
            if self.parts[i] != other.parts[i] {
                assert(self@.parts[i as int] != other@.parts[i as int]);
                return false;
            }
            i = i + 1;
        }
        assert(self@.parts =~= other@.parts);
        true
    }
}

} // verus!
