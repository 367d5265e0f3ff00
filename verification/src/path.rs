//! File paths as normalized text.

use crate::order::{
    lemma_text_precedes_irreflexive, lemma_text_precedes_total, lemma_text_precedes_transitive,
    place_text, text_precedes, Ordered, Placement,
};
use crate::text::{
    before_first, cut_first, cut_last, first_index, join_linked, join_segments, join_text, last_index,
    leading_part, lemma_first_index, lemma_join_split, lemma_last_index, lemma_split_join, lemma_split_parts, linked, rsplit_once,
    same_text, split_once, split_segments, split_text, texts,
};
use vstd::prelude::*;

verus! {

/// The component that stands for the directory itself.
pub open spec fn current() -> Seq<char> {
    seq!['.']
}

/// The component that stands for the directory above.
pub open spec fn parent() -> Seq<char> {
    seq!['.', '.']
}

pub open spec fn is_absolute(text: Seq<char>) -> bool {
    text.len() > 0 && text[0] == '/'
}

/// Whether a part between slashes is a component wherever it stands.
pub open spec fn is_component() -> spec_fn(Seq<char>) -> bool {
    |part: Seq<char>| part.len() > 0 && part != current()
}

/// The components of a path as it is written: the parts between slashes, but for empty ones and
/// for `.`, which counts only where the path starts with it.
pub open spec fn components(text: Seq<char>) -> Seq<Seq<char>> {
    let parts = split_segments(text, '/');
    if parts[0] == current() {
        seq![current()] + parts.filter(is_component())
    } else {
        parts.filter(is_component())
    }
}

/// The one way in which a path is written here: its components separated by single slashes, with
/// a leading slash where the path is absolute.
pub open spec fn normalized(text: Seq<char>) -> Seq<char> {
    if is_absolute(text) {
        seq!['/'] + join_segments(components(text), '/')
    } else {
        join_segments(components(text), '/')
    }
}

/// Whether a path is written in the normal way.
pub open spec fn is_normal(text: Seq<char>) -> bool {
    normalized(text) == text
}

proof fn lemma_filter_all<A>(list: Seq<A>, pred: spec_fn(A) -> bool)
    requires
        forall|i: int| 0 <= i < list.len() ==> pred(#[trigger] list[i]),
    ensures
        list.filter(pred) == list,
    decreases list.len(),
{
    reveal(Seq::filter);
    if list.len() > 0 {
        let shorter = list.drop_last();
        assert forall|i: int| 0 <= i < shorter.len() implies pred(#[trigger] shorter[i]) by {
            assert(shorter[i] == list[i]);
        }
        lemma_filter_all(shorter, pred);
        assert(pred(list[list.len() - 1]));
        assert(shorter.push(list.last()) =~= list);
    }
}

proof fn lemma_filter_drop<A>(item: A, list: Seq<A>, pred: spec_fn(A) -> bool)
    requires
        !pred(item),
    ensures
        (seq![item] + list).filter(pred) == list.filter(pred),
{
    Seq::filter_distributes_over_add(seq![item], list, pred);
    reveal(Seq::filter);
    assert(seq![item].drop_last() =~= Seq::empty());
    assert(seq![item].drop_last().filter(pred) =~= Seq::empty());
    assert(seq![item].filter(pred) =~= Seq::empty());
    assert(Seq::<A>::empty() + list.filter(pred) =~= list.filter(pred));
}

pub proof fn lemma_filter_members<A>(list: Seq<A>, pred: spec_fn(A) -> bool)
    ensures
        forall|i: int|
            0 <= i < list.filter(pred).len() ==> pred(#[trigger] list.filter(pred)[i])
                && list.contains(list.filter(pred)[i]),
    decreases list.len(),
{
    reveal(Seq::filter);
    if list.len() > 0 {
        let shorter = list.drop_last();
        lemma_filter_members(shorter, pred);
        let kept = list.filter(pred);
        assert forall|i: int| 0 <= i < kept.len() implies pred(#[trigger] kept[i])
            && list.contains(kept[i]) by {
            if i < shorter.filter(pred).len() {
                assert(kept[i] == shorter.filter(pred)[i]);
                let j = choose|j: int| 0 <= j < shorter.len() && shorter[j] == kept[i];
                assert(list[j] == kept[i]);
            } else {
                assert(list[list.len() - 1] == kept[i]);
            }
        }
    }
}

/// A path that was written in the normal way stays as it is.
pub proof fn lemma_normalized(text: Seq<char>)
    ensures
        is_normal(normalized(text)),
{
    let parts = split_segments(text, '/');
    let kept = parts.filter(is_component());
    let list = components(text);
    lemma_split_parts(text, '/');
    lemma_filter_members(parts, is_component());
    assert(!current().contains('/'));
    assert forall|i: int| 0 <= i < kept.len() implies !(#[trigger] kept[i]).contains('/') by {
        let j = choose|j: int| 0 <= j < parts.len() && parts[j] == kept[i];
        assert(!parts[j].contains('/'));
    }
    assert forall|i: int| 0 <= i < list.len() implies !(#[trigger] list[i]).contains('/')
        && list[i].len() > 0 by {
        if parts[0] == current() {
            if i > 0 {
                assert(list[i] == kept[i - 1]);
            }
        } else {
            assert(list[i] == kept[i]);
        }
    }
    lemma_filter_all(kept, is_component());
    let body = join_segments(list, '/');
    let whole = normalized(text);
    lemma_first_index(text, '/');
    if is_absolute(text) {
        assert(text.take(0) =~= Seq::<char>::empty());
        assert(parts[0] == Seq::<char>::empty());
    }
    if list.len() == 0 {
        lemma_normal_root();
    } else {
        lemma_split_join(list, '/');
        if is_absolute(text) {
            lemma_first_index(whole, '/');
            assert(whole[0] == '/');
            assert(whole.skip(1) =~= body);
            assert(whole.take(0) =~= Seq::<char>::empty());
            assert(split_segments(whole, '/') == seq![Seq::<char>::empty()] + list);
            lemma_filter_drop(Seq::<char>::empty(), list, is_component());
            assert(components(whole) == list);
        } else {
            lemma_join_head(list, '/');
            assert(!is_absolute(whole)) by {
                if whole[0] == '/' {
                    assert(list[0][0] == '/');
                    assert(list[0].contains('/'));
                }
            }
            if parts[0] == current() {
                lemma_filter_drop(current(), kept, is_component());
                assert(components(whole) == list);
            } else {
                assert(is_component()(list[0]));
                assert(components(whole) == list);
            }
        }
    }
}

proof fn lemma_normal_root()
    ensures
        is_normal(Seq::empty()),
        is_normal(seq!['/']),
{
    reveal(Seq::filter);
    let none = Seq::<char>::empty();
    lemma_first_index(none, '/');
    assert(split_segments(none, '/') =~= seq![none]);
    assert(seq![none].drop_last() =~= Seq::empty());
    assert(seq![none].drop_last().filter(is_component()) =~= Seq::empty());
    assert(components(none) =~= Seq::empty());
    let root = seq!['/'];
    lemma_first_index(root, '/');
    assert(root.take(0) =~= none);
    assert(root.skip(1) =~= none);
    assert(split_segments(root, '/') == seq![none] + seq![none]);
    lemma_filter_drop(none, seq![none], is_component());
    assert(components(root) =~= Seq::empty());
    assert(normalized(root) =~= root);
}

proof fn lemma_join_head(parts: Seq<Seq<char>>, c: char)
    requires
        parts.len() > 0,
        parts[0].len() > 0,
    ensures
        join_segments(parts, c).len() > 0,
        join_segments(parts, c)[0] == parts[0][0],
    decreases parts.len(),
{
    if parts.len() > 1 {
        assert(parts.drop_last()[0] == parts[0]);
        lemma_join_head(parts.drop_last(), c);
    }
}

/// A file path. Its components are separated by slashes; a path of a platform with another
/// separator is handed over with slashes in its place. Paths are the same where both or none are absolute and their components are the
/// same, however they are written; the view is the normal way to write the path.
#[derive(Debug)]
pub struct FilePath {
    written: String,
    normal: String,
}

impl View for FilePath {
    type V = Seq<char>;

    closed spec fn view(&self) -> Seq<char> {
        self.normal@
    }
}

/// How components rank by their kind: the root, the directory itself, the directory above, and
/// then the named ones.
pub open spec fn component_rank(part: Seq<char>) -> nat {
    if part.len() == 0 {
        0
    } else if part == current() {
        1
    } else if part == parent() {
        2
    } else {
        3
    }
}

/// The order on components: by kind, and named ones by their characters.
pub open spec fn component_precedes(a: Seq<char>, b: Seq<char>) -> bool {
    component_rank(a) < component_rank(b) || (component_rank(a) == component_rank(b)
        && text_precedes(a, b))
}

/// The order on paths: component by component.
pub open spec fn path_precedes(a: Seq<char>, b: Seq<char>) -> bool
    decreases a.len(),
{
    let x = before_first(a, '/');
    let y = before_first(b, '/');
    if x != y {
        component_precedes(x, y)
    } else {
        match (cut_first(a, '/'), cut_first(b, '/')) {
            (_, None) => false,
            (None, Some(_)) => true,
            (Some((_, rest)), Some((_, other))) => path_precedes(rest, other),
        }
    }
}

proof fn lemma_component_total(a: Seq<char>, b: Seq<char>)
    ensures
        a == b || component_precedes(a, b) || component_precedes(b, a),
        !component_precedes(a, a),
{
    lemma_text_precedes_total(a, b);
    lemma_text_precedes_irreflexive(a);
}

proof fn lemma_component_transitive(a: Seq<char>, b: Seq<char>, c: Seq<char>)
    requires
        component_precedes(a, b),
        component_precedes(b, c),
    ensures
        component_precedes(a, c),
{
    if component_rank(a) == component_rank(b) && component_rank(b) == component_rank(c) {
        lemma_text_precedes_transitive(a, b, c);
    }
}

/// A path is made of its first component and the rest.
proof fn lemma_first_component(path: Seq<char>)
    ensures
        match cut_first(path, '/') {
            Some((first, rest)) => first == before_first(path, '/') && rest.len() < path.len()
                && path == before_first(path, '/').push('/') + rest,
            None => path == before_first(path, '/'),
        },
{
    lemma_first_index(path, '/');
    let i = first_index(path, '/');
    if i < path.len() {
        assert(path =~= path.take(i).push('/') + path.skip(i + 1));
    } else {
        assert(path.take(i) =~= path);
    }
}

/// Compares two paths component by component.
fn place_path(a: &str, b: &str) -> (placement: Placement)
    ensures
        match placement {
            Placement::Before => path_precedes(a@, b@),
            Placement::Same => a@ == b@,
            Placement::After => path_precedes(b@, a@),
        },
    decreases a@.len(),
{
    proof {
        lemma_first_component(a@);
        lemma_first_component(b@);
    }
    match place_component(leading_part(a, '/'), leading_part(b, '/')) {
        Placement::Same => match (split_once(a, '/'), split_once(b, '/')) {
            (None, None) => Placement::Same,
            (None, Some(_)) => Placement::Before,
            (Some(_), None) => Placement::After,
            (Some((_, rest)), Some((_, other))) => place_path(rest, other),
        },
        Placement::Before => {
            proof {
                lemma_component_total(before_first(a@, '/'), before_first(b@, '/'));
            }
            Placement::Before
        },
        Placement::After => {
            proof {
                lemma_component_total(before_first(b@, '/'), before_first(a@, '/'));
            }
            Placement::After
        },
    }
}

fn rank_component(part: &str) -> (rank: u8)
    ensures
        rank == component_rank(part@),
{
    proof {
        reveal_strlit(".");
        reveal_strlit("..");
        assert("."@ =~= current());
        assert(".."@ =~= parent());
    }
    if part.is_empty() {
        0
    } else if same_text(part, ".") {
        1
    } else if same_text(part, "..") {
        2
    } else {
        3
    }
}

/// Compares two components by kind, then by their characters.
fn place_component(a: &str, b: &str) -> (placement: Placement)
    ensures
        match placement {
            Placement::Before => component_precedes(a@, b@),
            Placement::Same => a@ == b@,
            Placement::After => component_precedes(b@, a@),
        },
{
    let left = rank_component(a);
    let right = rank_component(b);
    if left < right {
        Placement::Before
    } else if right < left {
        Placement::After
    } else {
        place_text(a, b)
    }
}

impl Ordered for FilePath {
    open spec fn precedes(a: Seq<char>, b: Seq<char>) -> bool {
        path_precedes(a, b)
    }

    proof fn precedes_irreflexive(a: Seq<char>)
        decreases a.len(),
    {
        lemma_first_component(a);
        if let Some((_, rest)) = cut_first(a, '/') {
            Self::precedes_irreflexive(rest);
        }
    }

    proof fn precedes_transitive(a: Seq<char>, b: Seq<char>, c: Seq<char>)
        decreases a.len(),
    {
        lemma_first_component(a);
        lemma_first_component(b);
        lemma_first_component(c);
        let x = before_first(a, '/');
        let y = before_first(b, '/');
        let z = before_first(c, '/');
        lemma_component_total(x, y);
        if x != y && y != z {
            lemma_component_transitive(x, y, z);
        } else if x == y && y == z {
            if let (Some((_, ra)), Some((_, rb)), Some((_, rc))) = (
                cut_first(a, '/'),
                cut_first(b, '/'),
                cut_first(c, '/'),
            ) {
                Self::precedes_transitive(ra, rb, rc);
            }
        }
    }

    proof fn precedes_total(a: Seq<char>, b: Seq<char>)
        decreases a.len(),
    {
        lemma_first_component(a);
        lemma_first_component(b);
        let x = before_first(a, '/');
        let y = before_first(b, '/');
        lemma_component_total(x, y);
        if x == y {
            if let (Some((_, ra)), Some((_, rb))) = (cut_first(a, '/'), cut_first(b, '/')) {
                Self::precedes_total(ra, rb);
            }
        }
    }

    fn place(&self, other: &Self) -> (placement: Placement) {
        place_path(self.normal.as_str(), other.normal.as_str())
    }

    fn duplicate(&self) -> (copy: Self)
        ensures
            copy.spelling() == self.spelling(),
    {
        proof {
            use_type_invariant(self);
        }
        FilePath { written: self.written.clone(), normal: self.normal.clone() }
    }
}

/// The last component of a path, where it is a named one; else the empty text.
pub open spec fn file_name(path: Seq<char>) -> Seq<char> {
    let last = path.skip(last_index(path, '/') + 1);
    if component_rank(last) == 3 {
        last
    } else {
        Seq::empty()
    }
}

/// The extension of a path: what follows the last dot of its file name, unless that dot starts
/// the file name.
pub open spec fn extension(path: Seq<char>) -> Option<Seq<char>> {
    match cut_last(file_name(path), '.') {
        Some((stem, ext)) => if stem.len() == 0 {
            None
        } else {
            Some(ext)
        },
        None => None,
    }
}

/// Whether a path names a package's `__init__.py`.
pub open spec fn is_init(path: Seq<char>) -> bool {
    file_name(path) == "__init__.py"@
}

/// `path` written below `base`; an absolute `path` stands on its own.
pub open spec fn joined(base: Seq<char>, path: Seq<char>) -> Seq<char> {
    if is_absolute(path) {
        path
    } else if base.len() == 0 || base.last() == '/' {
        base + path
    } else {
        linked(base, '/', path)
    }
}

/// What remains of `path` below `base`, if the components of `base` come first in it.
pub open spec fn relative(path: Seq<char>, base: Seq<char>) -> Option<Seq<char>> {
    if base.len() == 0 {
        Some(path)
    } else if path == base {
        Some(Seq::empty())
    } else if base.last() == '/' && base.is_prefix_of(path) {
        Some(path.skip(base.len() as int))
    } else if base.push('/').is_prefix_of(path) {
        Some(path.skip(base.len() as int + 1))
    } else {
        None
    }
}

/// Copies the components of a path.
fn copy_components(parts: &Vec<String>) -> (list: Vec<String>)
    ensures
        texts(list@) == texts(parts@).filter(is_component()),
{
    let ghost all = texts(parts@);
    let mut list: Vec<String> = Vec::new();
    let mut i: usize = 0;
    proof {
        reveal(Seq::filter);
        assert(texts(list@) =~= all.take(0).filter(is_component()));
    }
    while i < parts.len()
        invariant
            i <= parts@.len(),
            all == texts(parts@),
            texts(list@) == all.take(i as int).filter(is_component()),
        decreases parts@.len() - i,
    {
        let ghost before = texts(list@);
        proof {
            reveal(Seq::filter);
            assert(all.take(i + 1).drop_last() =~= all.take(i as int));
        }
        if rank_component(parts[i].as_str()) > 1 {
            list.push(parts[i].clone());
            assert(texts(list@) =~= before.push(all[i as int]));
        }
        i += 1;
    }
    assert(all.take(i as int) =~= all);
    list
}

/// The components of a path as it is written.
fn split_components(text: &str) -> (list: Vec<String>)
    ensures
        texts(list@) == components(text@),
{
    proof {
        lemma_join_split(text@, '/');
    }
    let parts = split_text(text, '/');
    assert(texts(parts@)[0] == parts@[0]@);
    let mut kept = copy_components(&parts);
    if rank_component(parts[0].as_str()) == 1 {
        let ghost rest = texts(kept@);
        kept.insert(0, parts[0].clone());
        assert(texts(kept@) =~= seq![current()] + rest);
    }
    kept
}

/// The normal way to write a path.
fn normalize_text(text: &str) -> (normal: String)
    ensures
        normal@ == normalized(text@),
{
    proof {
        reveal_strlit("/");
    }
    let list = split_components(text);
    let rest = join_text(&list, "/");
    if !text.is_empty() && text.get_char(0) == '/' {
        let mut normal = "/".to_string();
        normal.append(rest.as_str());
        assert(normal@ =~= normalized(text@));
        normal
    } else {
        rest
    }
}

impl FilePath {
    #[verifier::type_invariant]
    spec fn is_normalized(self) -> bool {
        self.normal@ == normalized(self.written@)
    }

    /// The path as it was written.
    pub closed spec fn spelling(self) -> Seq<char> {
        self.written@
    }

    /// The path that a text stands for.
    pub fn new(text: String) -> (path: FilePath)
        ensures
            path@ == normalized(text@),
            path.spelling() == text@,
    {
        let normal = normalize_text(text.as_str());
        FilePath { written: text, normal }
    }

    /// The normal way to write the path.
    pub fn as_str(&self) -> (text: &str)
        ensures
            text@ == self@,
            is_normal(self@),
    {
        proof {
            use_type_invariant(self);
            lemma_normalized(self.written@);
        }
        self.normal.as_str()
    }

    /// The path as it was written.
    pub fn display(&self) -> (text: &str)
        ensures
            text@ == self.spelling(),
            self@ == normalized(self.spelling()),
    {
        proof {
            use_type_invariant(self);
        }
        self.written.as_str()
    }

    /// The last component, where it is a named one; else the empty text.
    pub fn file_name(&self) -> (name: &str)
        ensures
            name@ == file_name(self@),
    {
        proof {
            lemma_last_index(self@, '/');
        }
        let last = match rsplit_once(self.normal.as_str(), '/') {
            Some((_, last)) => last,
            None => {
                assert(self@.skip(0) =~= self@);
                self.normal.as_str()
            },
        };
        if rank_component(last) == 3 {
            last
        } else {
            proof {
                reveal_strlit("");
                assert(""@ =~= Seq::<char>::empty());
            }
            ""
        }
    }

    pub fn extension(&self) -> (ext: Option<&str>)
        ensures
            match ext {
                Some(e) => extension(self@) == Some(e@),
                None => extension(self@) is None,
            },
    {
        let name = self.file_name();
        match rsplit_once(name, '.') {
            Some((stem, ext)) => if stem.is_empty() {
                None
            } else {
                Some(ext)
            },
            None => None,
        }
    }

    pub fn join(&self, path: &FilePath) -> (whole: FilePath)
        ensures
            whole.spelling() == joined(self.spelling(), path.spelling()),
            whole@ == normalized(whole.spelling()),
    {
        let above = self.written.as_str();
        let below = path.written.as_str();
        let n = above.unicode_len();
        if !below.is_empty() && below.get_char(0) == '/' {
            return FilePath::new(below.to_string());
        }
        if n == 0 || above.get_char(n - 1) == '/' {
            let mut text = above.to_string();
            text.append(below);
            return FilePath::new(text);
        }
        proof {
            reveal_strlit("/");
        }
        FilePath::new(join_linked(above, "/", below))
    }

    /// The path below `base`, if there is one.
    pub fn relative_to(&self, base: &FilePath) -> (rest: Option<&str>)
        ensures
            match rest {
                Some(r) => relative(self@, base@) == Some(r@),
                None => relative(self@, base@) is None,
            },
    {
        let path = self.normal.as_str();
        let above = base.normal.as_str();
        let n = path.unicode_len();
        let m = above.unicode_len();
        if m == 0 {
            return Some(path);
        }
        if m > n {
            assert(path@ != above@);
            return None;
        }
        let front = path.substring_char(0, m);
        assert(front@ =~= path@.take(m as int));
        if !same_text(front, above) {
            proof {
                if path@ == above@ || above@.is_prefix_of(path@) || above@.push('/').is_prefix_of(
                    path@,
                ) {
                    assert(front@ =~= above@);
                }
            }
            return None;
        }
        assert(above@.is_prefix_of(path@));
        if n == m {
            assert(path@ =~= above@);
            assert(path@.skip(n as int) =~= Seq::<char>::empty());
            return Some(path.substring_char(n, n));
        }
        if above.get_char(m - 1) == '/' {
            return Some(path.substring_char(m, n));
        }
        if path.get_char(m) == '/' {
            assert(above@.push('/') =~= path@.take(m + 1));
            return Some(path.substring_char(m + 1, n));
        }
        assert(!above@.push('/').is_prefix_of(path@)) by {
            if above@.push('/').is_prefix_of(path@) {
                assert(above@.push('/')[m as int] == path@[m as int]);
            }
        }
        None
    }
}

pub fn is_init_file(path: &FilePath) -> (yes: bool)
    ensures
        yes == is_init(path@),
{
    same_text(path.file_name(), "__init__.py")
}

} // verus!
