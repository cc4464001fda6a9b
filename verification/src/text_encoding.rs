//! The encodings of texts, by the labels of the Encoding Standard.

use vstd::prelude::*;

verus! {

/// Whether a character is a space that may stand around a label: a tab, the end
/// of a line or of a page, or a blank.
pub open spec fn is_space(c: char) -> bool {
    c as u32 == 9 || c as u32 == 10 || c as u32 == 12 || c as u32 == 13 || c as u32 == 32
}

/// The text without the spaces that it starts with.
pub open spec fn trimmed_start(s: Seq<char>) -> Seq<char>
    decreases s.len(),
{
    if s.len() > 0 && is_space(s[0]) {
        trimmed_start(s.skip(1))
    } else {
        s
    }
}

/// The text without the spaces that it ends with.
pub open spec fn trimmed_end(s: Seq<char>) -> Seq<char>
    decreases s.len(),
{
    if s.len() > 0 && is_space(s.last()) {
        trimmed_end(s.drop_last())
    } else {
        s
    }
}

/// Whether two labels are the same but for the case of ASCII letters and the
/// spaces around them.
pub open spec fn same_label(a: Seq<char>, b: Seq<char>) -> bool {
    crate::repository::same_ignoring_case(
        trimmed_end(trimmed_start(a)),
        trimmed_end(trimmed_start(b)),
    )
}

/// The name of the encoding that a label stands for, if it stands for one that
/// texts can be written in.
pub uninterp spec fn named_by(label: Seq<char>) -> Option<Seq<char>>;

/// What bytes say in the encoding with the given name.
pub uninterp spec fn decoded(name: Seq<char>, text: Seq<u8>) -> Seq<char>;

/// A text in the encoding with the given name.
pub uninterp spec fn encoded(name: Seq<char>, text: Seq<char>) -> Seq<u8>;

/// `encoding_rs::Encoding::for_label_no_replacement`, and the name of the
/// encoding that it gives. Which one that is depends on the label alone, but not
/// on the case of ASCII letters, nor on spaces around the label. The name of an
/// encoding is one of its labels.
#[verifier::external_body]
fn for_label_no_replacement(label: &str) -> (r: Option<String>)
    ensures
        r is Some == (named_by(label@) is Some),
        r matches Some(name) ==> named_by(label@) == Some(name@) && named_by(name@) == Some(name@),
        forall|other: Seq<char>| #[trigger]
            same_label(label@, other) ==> named_by(other) == match r {
                Some(name) => Some(name@),
                None => None,
            },
{
    let encoding = encoding_rs::Encoding::for_label_no_replacement(label.as_bytes())?;
    Some(encoding.name().to_owned())
}

/// `encoding_rs::Encoding::decode`, of the encoding with the given name,
/// without the encoding that was used and whether anything was replaced. The
/// text depends on the encoding and on the bytes. Bytes so many that the size
/// of a buffer would overflow are left out.
#[verifier::external_body]
fn decode(name: &str, text: &[u8]) -> (r: String)
    requires
        named_by(name@) == Some(name@),
        16 * (text@.len() + 64) <= usize::MAX,
    ensures
        r@ == decoded(name@, text@),
{
    let encoding = encoding_rs::Encoding::for_label_no_replacement(name.as_bytes()).unwrap();
    encoding.decode(text).0.into_owned()
}

/// `encoding_rs::Encoding::encode`, of the encoding with the given name,
/// without the encoding that was used and whether anything was replaced. The
/// bytes depend on the encoding and on the text. Texts so long that the size
/// of a buffer would overflow are left out.
#[verifier::external_body]
fn encode(name: &str, text: &str) -> (r: Vec<u8>)
    requires
        named_by(name@) == Some(name@),
        64 * (text@.len() + 64) <= usize::MAX,
    ensures
        r@ == encoded(name@, text@),
{
    let encoding = encoding_rs::Encoding::for_label_no_replacement(name.as_bytes()).unwrap();
    encoding.encode(text).0.into_owned()
}

/// The encoding of a text, by its name.
#[derive(Debug)]
pub struct Encoding {
    name: String,
}

impl View for Encoding {
    type V = Seq<char>;

    /// The name of the encoding.
    closed spec fn view(&self) -> Seq<char> {
        self.name@
    }
}

impl Encoding {
    /// The name of an encoding is one of its labels.
    #[verifier::type_invariant]
    spec fn wf(self) -> bool {
        named_by(self.name@) == Some(self.name@)
    }

    /// The encoding that a label stands for, in any of its spellings.
    pub fn for_label(label: &str) -> (r: Encoding)
        requires
            named_by(label@) is Some,
        ensures
            named_by(label@) == Some(r@),
            forall|other: Seq<char>| #[trigger]
                same_label(label@, other) ==> named_by(other) == Some(r@),
    {
        Encoding { name: for_label_no_replacement(label).unwrap() }
    }

    /// The encoding that a label stands for, in any of its spellings, if it
    /// stands for one.
    pub fn checked_for_label(label: &str) -> (r: Option<Encoding>)
        ensures
            match r {
                Some(e) => named_by(label@) == Some(e@),
                None => named_by(label@) is None,
            },
            forall|other: Seq<char>| #[trigger]
                same_label(label@, other) ==> named_by(other) == named_by(label@),
    {
        if for_label_no_replacement(label).is_none() {
            return None;
        }
        Some(Encoding::for_label(label))
    }

    /// The label that the encoding is written as: its name. Reading it again
    /// gives the same encoding.
    pub fn label(&self) -> (r: &str)
        ensures
            r@ == self@,
            named_by(r@) == Some(self@),
    {
        proof {
            use_type_invariant(self);
        }
        self.name.as_str()
    }

    /// What the bytes say in this encoding.
    pub fn decode(&self, text: &[u8]) -> (r: String)
        requires
            16 * (text@.len() + 64) <= usize::MAX,
        ensures
            r@ == decoded(self@, text@),
    {
        proof {
            use_type_invariant(self);
        }
        decode(self.name.as_str(), text)
    }

    /// The text in this encoding.
    pub fn encode(&self, text: &str) -> (r: Vec<u8>)
        requires
            64 * (text@.len() + 64) <= usize::MAX,
        ensures
            r@ == encoded(self@, text@),
    {
        proof {
            use_type_invariant(self);
        }
        encode(self.name.as_str(), text)
    }
}

impl PartialEq for Encoding {
    fn eq(&self, other: &Encoding) -> (r: bool) {
        self.name == other.name
    }
}

impl vstd::std_specs::cmp::PartialEqSpecImpl for Encoding {
    open spec fn obeys_eq_spec() -> bool {
        true
    }

    open spec fn eq_spec(&self, other: &Encoding) -> bool {
        self@ == other@
    }
}

impl Eq for Encoding {

}

impl Clone for Encoding {
    fn clone(&self) -> (r: Encoding)
        ensures
            r@ == self@,
    {
        proof {
            use_type_invariant(self);
        }
        Encoding { name: self.name.clone() }
    }
}

/// A label stands for the same encoding with any spaces before and behind it,
/// and in whatever case its ASCII letters are written.
pub proof fn law_spellings(a: Seq<char>, before: Seq<char>, b: Seq<char>, behind: Seq<char>)
    requires
        crate::repository::same_ignoring_case(a, b),
        forall|i: int|
            0 <= i < before.len() ==> {
                let c = #[trigger] before[i];
                c == ' ' || c == '\t' || c == '\n' || c == '\r' || c as u32 == 12
            },
        forall|i: int|
            0 <= i < behind.len() ==> {
                let c = #[trigger] behind[i];
                c == ' ' || c == '\t' || c == '\n' || c == '\r' || c as u32 == 12
            },
    ensures
        same_label(a, before + b + behind),
        same_label(before + b + behind, a),
{
    let s = before + b + behind;
    assert(s =~= before + (b + behind));
    lemma_spaces_before(before, b + behind);
    lemma_spaces_behind(b, behind);
    lemma_same_trimmed(a, b);
}

proof fn lemma_spaces_before(before: Seq<char>, s: Seq<char>)
    requires
        forall|i: int| 0 <= i < before.len() ==> is_space(#[trigger] before[i]),
    ensures
        trimmed_start(before + s) == trimmed_start(s),
    decreases before.len(),
{
    if before.len() == 0 {
        assert(before + s =~= s);
    } else {
        assert(is_space(before[0]));
        assert((before + s).skip(1) =~= before.skip(1) + s);
        lemma_spaces_before(before.skip(1), s);
    }
}

/// What is trimmed at the end does not change what is trimmed at the start,
/// unless nothing is left.
proof fn lemma_spaces_behind(s: Seq<char>, behind: Seq<char>)
    requires
        forall|i: int| 0 <= i < behind.len() ==> is_space(#[trigger] behind[i]),
    ensures
        trimmed_end(trimmed_start(s + behind)) == trimmed_end(trimmed_start(s)),
    decreases s.len(),
{
    if s.len() == 0 {
        assert(s + behind =~= behind + s);
        lemma_spaces_before(behind, s);
    } else if is_space(s[0]) {
        assert((s + behind)[0] == s[0]);
        assert((s + behind).skip(1) =~= s.skip(1) + behind);
        lemma_spaces_behind(s.skip(1), behind);
    } else {
        assert((s + behind)[0] == s[0]);
        lemma_end_behind(s, behind);
    }
}

proof fn lemma_end_behind(s: Seq<char>, behind: Seq<char>)
    requires
        forall|i: int| 0 <= i < behind.len() ==> is_space(#[trigger] behind[i]),
    ensures
        trimmed_end(s + behind) == trimmed_end(s),
    decreases behind.len(),
{
    if behind.len() == 0 {
        assert(s + behind =~= s);
    } else {
        assert(is_space(behind[behind.len() - 1]));
        assert((s + behind).last() == behind.last());
        assert((s + behind).drop_last() =~= s + behind.drop_last());
        lemma_end_behind(s, behind.drop_last());
    }
}

proof fn lemma_same_trimmed(a: Seq<char>, b: Seq<char>)
    requires
        crate::repository::same_ignoring_case(a, b),
    ensures
        same_label(a, b),
        same_label(b, a),
    decreases a.len(),
{
    if a.len() > 0 {
        assert(crate::repository::lower_code(a[0]) == crate::repository::lower_code(b[0]));
        if is_space(a[0]) {
            assert forall|i: int| 0 <= i < a.skip(1).len() implies crate::repository::lower_code(
                #[trigger] a.skip(1)[i],
            ) == crate::repository::lower_code(b.skip(1)[i]) by {
                assert(crate::repository::lower_code(a[i + 1]) == crate::repository::lower_code(
                    b[i + 1],
                ));
            }
            lemma_same_trimmed(a.skip(1), b.skip(1));
        } else {
            lemma_same_ends(a, b);
        }
    }
}

proof fn lemma_same_ends(a: Seq<char>, b: Seq<char>)
    requires
        crate::repository::same_ignoring_case(a, b),
    ensures
        crate::repository::same_ignoring_case(trimmed_end(a), trimmed_end(b)),
        crate::repository::same_ignoring_case(trimmed_end(b), trimmed_end(a)),
    decreases a.len(),
{
    if a.len() > 0 {
        let n = a.len() - 1;
        assert(crate::repository::lower_code(a[n]) == crate::repository::lower_code(b[n]));
        if is_space(a.last()) {
            assert forall|i: int| 0 <= i < n implies crate::repository::lower_code(
                #[trigger] a.drop_last()[i],
            ) == crate::repository::lower_code(b.drop_last()[i]) by {
                assert(crate::repository::lower_code(a[i]) == crate::repository::lower_code(b[i]));
            }
            lemma_same_ends(a.drop_last(), b.drop_last());
        } else {
            assert forall|i: int| 0 <= i < b.len() implies crate::repository::lower_code(
                #[trigger] b[i],
            ) == crate::repository::lower_code(a[i]) by {
                assert(crate::repository::lower_code(a[i]) == crate::repository::lower_code(b[i]));
            }
        }
    }
}

/// An encoding is written as a label that stands for it, so that reading the
/// label again gives the same encoding, and so does every other spelling of the
/// first label. A label is refused exactly if it stands for no encoding.
pub proof fn law_labels_come_back(
    label: &str,
    e: Encoding,
    written: &str,
    again: Option<Encoding>,
    spelling: &str,
    other: Option<Encoding>,
)
    requires
        call_ensures(Encoding::for_label, (label,), e),
        call_ensures(Encoding::label, (&e,), written),
        call_ensures(Encoding::checked_for_label, (written,), again),
        same_label(label@, spelling@),
        call_ensures(Encoding::checked_for_label, (spelling,), other),
    ensures
        named_by(label@) == Some(e@),
        written@ == e@,
        again matches Some(f) && f@ == e@,
        other matches Some(f) && f@ == e@,
{
}

/// Texts are read and written in the encoding itself, whatever it was called.
pub proof fn law_texts_in_an_encoding(
    e: Encoding,
    f: Encoding,
    bytes: &[u8],
    text: &str,
    a: String,
    b: Vec<u8>,
)
    requires
        call_ensures(Encoding::clone, (&e,), f),
        call_ensures(Encoding::decode, (&f, bytes), a),
        call_ensures(Encoding::encode, (&f, text), b),
    ensures
        a@ == decoded(e@, bytes@),
        b@ == encoded(e@, text@),
{
}

} // verus!
