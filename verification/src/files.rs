//! Files that can be opened: what their extension says they are, the list of
//! signatures, and the messages about them.

use vstd::prelude::*;

use crate::names::name_views;
use crate::overlay::copy_bytes;
use crate::text::chars_of;

verus! {

// ---------------------------------------------------------------------------
// Extensions
// ---------------------------------------------------------------------------

/// An ASCII capital as a small letter; any other character as it is.
pub open spec fn lower(c: char) -> char {
    if 'A' <= c <= 'Z' {
        ((c as u8 + 32) as u8) as char
    } else {
        c
    }
}

/// A text with its ASCII capitals as small letters.
pub open spec fn lowered(s: Seq<char>) -> Seq<char> {
    s.map_values(|c: char| lower(c))
}

/// An ASCII capital as a small letter; any other character as it is.
pub fn to_lower(c: char) -> (r: char)
    ensures
        r == lower(c),
{
    if 'A' <= c && c <= 'Z' {
        (c as u8 + 32) as char
    } else {
        c
    }
}

fn lowered_chars(s: &str) -> (r: Vec<char>)
    ensures
        r@ == lowered(s@),
{
    let chars = chars_of(s);
    let n = chars.len();
    let mut r: Vec<char> = Vec::new();
    let mut i: usize = 0;
    while i < n
        invariant
            n == chars.len(),
            chars@ == s@,
            i <= n,
            r@ == lowered(s@).take(i as int),
        decreases n - i,
    {
        r.push(to_lower(chars[i]));
        i += 1;
        assert(r@ =~= lowered(s@).take(i as int));
    }
    assert(r@ =~= lowered(s@));
    r
}

pub(crate) fn same_chars(a: &Vec<char>, b: &str) -> (r: bool)
    ensures
        r == (a@ == b@),
{
    let other = chars_of(b);
    if a.len() != other.len() {
        return false;
    }
    let n = a.len();
    let mut i: usize = 0;
    while i < n
        invariant
            n == a.len(),
            n == other.len(),
            other@ == b@,
            i <= n,
            forall|k: int| 0 <= k < i ==> a@[k] == other@[k],
        decreases n - i,
    {
        if a[i] != other[i] {
            return false;
        }
        i += 1;
    }
    assert(a@ =~= b@);
    true
}

/// What a file is, by its extension.
#[derive(Clone, Copy, Debug, PartialEq, Eq, Structural)]
pub enum FileKind {
    Pdf,
    Image,
    Other,
}

/// What a file with the given extension is; letters count as equal whether
/// capital or small.
pub open spec fn kind_of(extension: Option<Seq<char>>) -> FileKind {
    match extension {
        Some(e) => if lowered(e) == "pdf"@ {
            FileKind::Pdf
        } else if lowered(e) == "png"@ || lowered(e) == "jpg"@ || lowered(e) == "jpeg"@ {
            FileKind::Image
        } else {
            FileKind::Other
        },
        None => FileKind::Other,
    }
}

/// The content of an optional text.
pub open spec fn text_view(text: Option<&str>) -> Option<Seq<char>> {
    match text {
        Some(t) => Some(t@),
        None => None,
    }
}

/// What a file is, by its extension.
pub fn file_kind(extension: Option<&str>) -> (r: FileKind)
    ensures
        r == kind_of(text_view(extension)),
{
    let e = match extension {
        Some(e) => lowered_chars(e),
        None => return FileKind::Other,
    };
    if same_chars(&e, "pdf") {
        FileKind::Pdf
    } else if same_chars(&e, "png") || same_chars(&e, "jpg") || same_chars(&e, "jpeg") {
        FileKind::Image
    } else {
        FileKind::Other
    }
}

// ---------------------------------------------------------------------------
// Status messages
// ---------------------------------------------------------------------------

/// `s` holds `part` from position `i` on.
pub open spec fn holds_at(s: Seq<char>, part: Seq<char>, i: int) -> bool {
    0 <= i && i + part.len() <= s.len() && s.subrange(i, i + part.len()) == part
}

/// A message that reports an error: it holds the word, in capitals or not.
pub open spec fn reports_error(status: Seq<char>) -> bool {
    exists|i: int| holds_at(lowered(status), "error"@, i)
}

/// Whether a message reports an error.
pub fn is_error(status: &str) -> (r: bool)
    ensures
        r == reports_error(status@),
{
    let s = lowered_chars(status);
    let word = chars_of("error");
    let n = s.len();
    let m = word.len();
    proof {
        reveal_strlit("error");
    }
    if n < m {
        return false;
    }
    let mut i: usize = 0;
    while i <= n - m
        invariant
            n == s.len(),
            m == word.len(),
            0 < m <= n,
            s@ == lowered(status@),
            word@ == "error"@,
            i <= n - m + 1,
            forall|k: int| 0 <= k < i ==> !holds_at(s@, word@, k),
        decreases n - m + 1 - i,
    {
        let mut j: usize = 0;
        while j < m && s[i + j] == word[j]
            invariant
                n == s.len(),
                m == word.len(),
                i + m <= n,
                j <= m,
                forall|k: int| 0 <= k < j ==> s@[i + k] == word@[k],
            decreases m - j,
        {
            j += 1;
        }
        if j == m {
            assert(s@.subrange(i as int, i + m) =~= word@);
            assert(holds_at(lowered(status@), "error"@, i as int));
            return true;
        }
        assert(!holds_at(s@, word@, i as int)) by {
            if holds_at(s@, word@, i as int) {
                assert(s@.subrange(i as int, i + m)[j as int] == word@[j as int]);
            }
        }
        i += 1;
    }
    false
}

/// A text after a label.
pub fn labelled(label: &str, text: &str) -> (r: String)
    ensures
        r@ == label@ + text@,
{
    let mut r = String::new();
    r.append(label);
    r.append(text);
    assert(r@ =~= label@ + text@);
    r
}

// ---------------------------------------------------------------------------
// The list of signatures
// ---------------------------------------------------------------------------

/// `a` comes before `b`, or is the same: byte by byte, and a name before any that
/// continues it.
pub open spec fn name_le(a: Seq<u8>, b: Seq<u8>) -> bool
    decreases a.len(),
{
    if a.len() == 0 {
        true
    } else if b.len() == 0 {
        false
    } else if a[0] != b[0] {
        a[0] < b[0]
    } else {
        name_le(a.drop_first(), b.drop_first())
    }
}

/// The order of names can be told of any two.
pub proof fn name_order_is_total(a: Seq<u8>, b: Seq<u8>)
    ensures
        name_le(a, b) || name_le(b, a),
        name_le(a, b) && name_le(b, a) ==> a == b,
    decreases a.len(),
{
    if a.len() > 0 && b.len() > 0 && a[0] == b[0] {
        name_order_is_total(a.drop_first(), b.drop_first());
        assert(a =~= seq![a[0]] + a.drop_first());
        assert(b =~= seq![b[0]] + b.drop_first());
    } else if a.len() == 0 && b.len() == 0 {
        assert(a =~= b);
    }
}

proof fn lemma_name_le_transitive(a: Seq<u8>, b: Seq<u8>, c: Seq<u8>)
    requires
        name_le(a, b),
        name_le(b, c),
    ensures
        name_le(a, c),
    decreases a.len(),
{
    if a.len() > 0 && b.len() > 0 && c.len() > 0 && a[0] == b[0] && b[0] == c[0] {
        lemma_name_le_transitive(a.drop_first(), b.drop_first(), c.drop_first());
    }
}

/// Names in ascending order.
pub open spec fn ascending(names: Seq<Seq<u8>>) -> bool {
    forall|i: int, j: int| 0 <= i <= j < names.len() ==> name_le(#[trigger] names[i], #[trigger] names[j])
}

/// What was found in the directory of signatures.
pub struct FoundFile {
    pub name: Vec<u8>,
    /// It is a file, and no directory.
    pub is_file: bool,
    pub extension: Option<String>,
}

impl FoundFile {
    /// It is a file with a picture.
    pub open spec fn is_picture(self) -> bool {
        self.is_file && kind_of(
            match self.extension {
                Some(e) => Some(e@),
                None => None,
            },
        ) == FileKind::Image
    }
}

/// The names of the pictures among files.
pub open spec fn picture_names(files: Seq<FoundFile>) -> Seq<Seq<u8>>
    decreases files.len(),
{
    if files.len() == 0 {
        Seq::empty()
    } else {
        let front = picture_names(files.drop_last());
        if files.last().is_picture() {
            front.push(files.last().name@)
        } else {
            front
        }
    }
}

fn name_at_most(a: &Vec<u8>, b: &Vec<u8>) -> (r: bool)
    ensures
        r == name_le(a@, b@),
{
    let n = a.len();
    let m = b.len();
    let mut i: usize = 0;
    assert(a@.skip(0) =~= a@);
    assert(b@.skip(0) =~= b@);
    while i < n
        invariant
            n == a.len(),
            m == b.len(),
            i <= n,
            i <= m,
            name_le(a@, b@) == name_le(a@.skip(i as int), b@.skip(i as int)),
        decreases n - i,
    {
        if i == m {
            return false;
        }
        if a[i] != b[i] {
            return a[i] < b[i];
        }
        assert(a@.skip(i as int).drop_first() =~= a@.skip(i + 1));
        assert(b@.skip(i as int).drop_first() =~= b@.skip(i + 1));
        i += 1;
    }
    true
}

proof fn lemma_insert_sorted(names: Seq<Seq<u8>>, k: int, name: Seq<u8>)
    requires
        ascending(names),
        0 <= k <= names.len(),
        forall|i: int| 0 <= i < k ==> name_le(#[trigger] names[i], name),
        k < names.len() ==> name_le(name, names[k]),
    ensures
        ascending(names.insert(k, name)),
        names.insert(k, name).to_multiset() == names.to_multiset().insert(name),
{
    let after = names.insert(k, name);
    name_order_is_total(name, name);
    assert forall|i: int, j: int| 0 <= i <= j < after.len() implies name_le(
        #[trigger] after[i],
        #[trigger] after[j],
    ) by {
        if i == k && j > k {
            assert(after[j] == names[j - 1]);
            assert(name_le(names[k], names[j - 1]));
            lemma_name_le_transitive(name, names[k], names[j - 1]);
        } else if i < k && j < k {
            assert(name_le(names[i], names[j]));
        } else if i < k && j > k {
            assert(name_le(names[i], names[j - 1]));
        } else if i > k {
            assert(name_le(names[i - 1], names[j - 1]));
        }
    }
    vstd::seq_lib::to_multiset_insert(names, k, name);
}

/// The names of the picture files among what was found, in ascending order.
pub fn list_signatures(files: &Vec<FoundFile>) -> (r: Vec<Vec<u8>>)
    ensures
        ascending(name_views(r@)),
        name_views(r@).to_multiset() == picture_names(files@).to_multiset(),
{
    let n = files.len();
    let mut r: Vec<Vec<u8>> = Vec::new();
    let mut i: usize = 0;
    assert(name_views(r@) =~= Seq::empty());
    assert(picture_names(files@.take(0)) =~= Seq::empty());
    while i < n
        invariant
            n == files.len(),
            i <= n,
            ascending(name_views(r@)),
            name_views(r@).to_multiset() == picture_names(files@.take(i as int)).to_multiset(),
        decreases n - i,
    {
        let file = &files[i];
        let extension = match &file.extension {
            Some(e) => Some(e.as_str()),
            None => None,
        };
        assert(files@.take(i + 1).drop_last() =~= files@.take(i as int));
        assert(files@.take(i + 1).last() == *file);
        if file.is_file && file_kind(extension) == FileKind::Image {
            let ghost front = picture_names(files@.take(i as int));
            let mut k: usize = r.len();
            while k > 0 && !name_at_most(&r[k - 1], &file.name)
                invariant
                    k <= r.len(),
                    ascending(name_views(r@)),
                    k < r.len() ==> name_le(file.name@, name_views(r@)[k as int]),
                decreases k,
            {
                proof {
                    name_order_is_total(name_views(r@)[k - 1], file.name@);
                }
                k -= 1;
            }
            let ghost before = name_views(r@);
            proof {
                assert forall|j: int| 0 <= j < k implies name_le(
                    #[trigger] before[j],
                    file.name@,
                ) by {
                    assert(name_le(before[j], before[k - 1]));
                    lemma_name_le_transitive(before[j], before[k - 1], file.name@);
                }
                lemma_insert_sorted(before, k as int, file.name@);
                front.to_multiset_ensures();
            }
            r.insert(k, copy_bytes(file.name.as_slice()));
            assert(name_views(r@) =~= before.insert(k as int, file.name@));
        }
        i += 1;
    }
    assert(files@.take(n as int) =~= files@);
    r
}

} // verus!
