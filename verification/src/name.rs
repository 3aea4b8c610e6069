//! Domain names as lists of labels.

use vstd::prelude::*;

use crate::text;

verus! {

/// What a domain name is: its labels, leftmost first, and whether it is
/// absolute.
#[verifier::ext_equal]
pub struct NameView {
    pub labels: Seq<Seq<u8>>,
    pub fqdn: bool,
}

/// A domain name.
#[derive(Debug)]
pub struct Name {
    /// The labels, leftmost first.
    pub labels: Vec<Vec<u8>>,
    /// Whether the name is absolute.
    pub fqdn: bool,
}

impl View for Name {
    type V = NameView;

    open spec fn view(&self) -> NameView {
        NameView { labels: text::views(self.labels@), fqdn: self.fqdn }
    }
}

/// Octets the labels occupy on the wire, the root label included.
pub open spec fn wire_len(labels: Seq<Seq<u8>>) -> nat
    decreases labels.len(),
{
    if labels.len() == 0 {
        1
    } else {
        wire_len(labels.drop_last()) + labels.last().len() + 1
    }
}

/// The DNS size limits: every label has 1 to 63 octets and the whole name at
/// most 255.
pub open spec fn labels_fit(labels: Seq<Seq<u8>>) -> bool {
    &&& forall|i: int| 0 <= i < labels.len() ==> 1 <= (#[trigger] labels[i]).len() <= 63
    &&& wire_len(labels) <= 255
}

/// The two label lists are equal, ignoring ASCII case.
pub open spec fn same_labels(a: Seq<Seq<u8>>, b: Seq<Seq<u8>>) -> bool {
    &&& a.len() == b.len()
    &&& forall|i: int| 0 <= i < a.len() ==> text::same_bytes(#[trigger] a[i], b[i])
}

/// The two names are equal: both absolute or both relative, labels equal
/// ignoring ASCII case.
pub open spec fn same_name(a: NameView, b: NameView) -> bool {
    a.fqdn == b.fqdn && same_labels(a.labels, b.labels)
}

/// `apex` is an ancestor of `name`, or `name` itself: its labels end the labels
/// of `name`, ignoring ASCII case.
pub open spec fn encloses(apex: NameView, name: NameView) -> bool {
    &&& apex.labels.len() <= name.labels.len()
    &&& same_labels(apex.labels, name.labels.skip(name.labels.len() - apex.labels.len()))
}

/// What hickory's `Name::from_labels` says about labels that do not fit.
pub uninterp spec fn label_error(labels: Seq<Seq<u8>>) -> Seq<char>;

/// The labels that hickory's `Name::from_str_relaxed` reads from a text, if it
/// accepts it.
pub uninterp spec fn relaxed_labels(s: Seq<char>) -> Option<Seq<Seq<u8>>>;

/// Calls `hickory_proto::rr::domain::Name::from_labels`.
///
/// Claimed of it: it accepts the labels exactly when each has 1 to 63 bytes and
/// the name as a whole has at most 255 on the wire; an accepted name has the
/// labels it was given, unchanged; the text of its error depends on the labels
/// alone.
#[verifier::external_body]
fn checked_labels(labels: &Vec<Vec<u8>>) -> (r: Result<Vec<Vec<u8>>, String>)
    ensures
        r is Ok <==> labels_fit(text::views(labels@)),
        r matches Ok(kept) ==> text::views(kept@) == text::views(labels@),
        r matches Err(reason) ==> reason@ == label_error(text::views(labels@)),
{
    match hickory_proto::rr::domain::Name::from_labels(labels.iter().map(|l| l.as_slice())) {
        Ok(name) => Ok(name.iter().map(|l| l.to_vec()).collect()),
        Err(e) => Err(e.to_string()),
    }
}

/// Calls `hickory_proto::rr::domain::Name::from_str_relaxed`.
///
/// Claimed of it: whether it accepts a text, and the labels it then reads, depend
/// on the text alone.
#[verifier::external_body]
fn labels_from_text(s: &str) -> (r: Option<Vec<Vec<u8>>>)
    ensures
        relaxed_labels(s@) == (match r {
            Some(labels) => Some(text::views(labels@)),
            None => None,
        }),
{
    match hickory_proto::rr::domain::Name::from_str_relaxed(s) {
        Ok(name) => Some(name.iter().map(|l| l.to_vec()).collect()),
        Err(_) => None,
    }
}

impl Name {
    /// The root name.
    pub fn root() -> (r: Name)
        ensures
            r@ == (NameView { labels: Seq::empty(), fqdn: true }),
    {
        let r = Name { labels: Vec::new(), fqdn: true };
        assert(r@.labels =~= Seq::empty());
        r
    }

    /// An absolute name with these labels, or the reason why there is none.
    pub fn from_labels(labels: Vec<Vec<u8>>) -> (r: Result<Name, String>)
        ensures
            r is Ok <==> labels_fit(text::views(labels@)),
            r matches Ok(name) ==> name@ == (NameView {
                labels: text::views(labels@),
                fqdn: true,
            }),
            r matches Err(reason) ==> reason@ == label_error(text::views(labels@)),
    {
        match checked_labels(&labels) {
            Ok(kept) => Ok(Name { labels: kept, fqdn: true }),
            Err(reason) => Err(reason),
        }
    }

    /// An absolute name read from its presentation form.
    pub fn from_str_relaxed(s: &str) -> (r: Option<Name>)
        ensures
            match r {
                Some(name) => name@.fqdn && relaxed_labels(s@) == Some(name@.labels),
                None => relaxed_labels(s@) is None,
            },
    {
        match labels_from_text(s) {
            Some(labels) => Some(Name { labels, fqdn: true }),
            None => None,
        }
    }

    /// How many labels the name has.
    pub fn num_labels(&self) -> (r: usize)
        ensures
            r == self@.labels.len(),
    {
        self.labels.len()
    }

    /// Name equality: DNS names ignore ASCII case.
    pub fn same(&self, other: &Name) -> (r: bool)
        ensures
            r == same_name(self@, other@),
    {
        if self.fqdn != other.fqdn || self.labels.len() != other.labels.len() {
            return false;
        }
        labels_match(&self.labels, 0, &other.labels)
    }

    /// Whether `name` is this name or lies below it.
    pub fn zone_of(&self, name: &Name) -> (r: bool)
        ensures
            r == encloses(self@, name@),
    {
        if self.labels.len() > name.labels.len() {
            return false;
        }
        labels_match(&name.labels, name.labels.len() - self.labels.len(), &self.labels)
    }
}

/// Whether the labels of `a` from index `from` on equal those of `b`.
fn labels_match(a: &Vec<Vec<u8>>, from: usize, b: &Vec<Vec<u8>>) -> (r: bool)
    requires
        from + b.len() == a.len(),
    ensures
        r == same_labels(text::views(b@), text::views(a@).skip(from as int)),
        from == 0 ==> r == same_labels(text::views(a@), text::views(b@)),
{
    let ghost left = text::views(b@);
    let ghost right = text::views(a@).skip(from as int);
    for i in 0..b.len()
        invariant
            from + b.len() == a.len(),
            left == text::views(b@),
            right == text::views(a@).skip(from as int),
            forall|k: int| 0 <= k < i ==> text::same_bytes(#[trigger] left[k], right[k]),
    {
        if !text::eq_bytes_ci(&b[i], &a[from + i]) {
            assert(!text::same_bytes(left[i as int], right[i as int]));
            proof {
                if from == 0 {
                    assert(text::views(a@)[i as int] == right[i as int]);
                }
            }
            return false;
        }
        assert(text::same_bytes(left[i as int], right[i as int]));
    }
    proof {
        if from == 0 {
            assert forall|k: int| 0 <= k < a@.len() implies text::same_bytes(
                #[trigger] text::views(a@)[k],
                text::views(b@)[k],
            ) by {
                assert(text::same_bytes(left[k], right[k]));
            }
        }
    }
    true
}

impl Clone for Name {
    fn clone(&self) -> (r: Self)
        ensures
            r@ == self@,
    {
        Name { labels: text::copy_labels(&self.labels), fqdn: self.fqdn }
    }
}

impl PartialEq for Name {
    fn eq(&self, other: &Self) -> (r: bool) {
        self.same(other)
    }
}

impl vstd::std_specs::cmp::PartialEqSpecImpl for Name {
    open spec fn obeys_eq_spec() -> bool {
        true
    }

    open spec fn eq_spec(&self, other: &Self) -> bool {
        same_name(self@, other@)
    }
}

impl Eq for Name {

}

/// Whether labels fit depends on their lengths alone.
pub proof fn lemma_fit_by_length(a: Seq<Seq<u8>>, b: Seq<Seq<u8>>)
    requires
        a.len() == b.len(),
        forall|i: int| 0 <= i < a.len() ==> (#[trigger] a[i]).len() == b[i].len(),
    ensures
        wire_len(a) == wire_len(b),
        labels_fit(a) == labels_fit(b),
    decreases a.len(),
{
    if a.len() > 0 {
        assert forall|i: int| 0 <= i < a.drop_last().len() implies (
        #[trigger] a.drop_last()[i]).len() == b.drop_last()[i].len() by {
            assert(a[i].len() == b[i].len());
        }
        lemma_fit_by_length(a.drop_last(), b.drop_last());
        assert(a[a.len() - 1].len() == b[a.len() - 1].len());
    }
    if labels_fit(a) {
        assert forall|i: int| 0 <= i < b.len() implies 1 <= (#[trigger] b[i]).len() <= 63 by {
            assert(a[i].len() == b[i].len());
        }
    }
    if labels_fit(b) {
        assert forall|i: int| 0 <= i < a.len() implies 1 <= (#[trigger] a[i]).len() <= 63 by {
            assert(a[i].len() == b[i].len());
        }
    }
}

/// What follows the first labels of a name that fits is a name that fits.
pub proof fn lemma_fit_suffix(labels: Seq<Seq<u8>>, k: int)
    requires
        labels_fit(labels),
        0 <= k <= labels.len(),
    ensures
        labels_fit(labels.skip(k)),
{
    lemma_wire_len_suffix(labels, k);
    assert forall|i: int| 0 <= i < labels.skip(k).len() implies 1 <= (#[trigger] labels.skip(
        k,
    )[i]).len() <= 63 by {
        assert(labels.skip(k)[i] == labels[k + i]);
    }
}

proof fn lemma_wire_len_suffix(labels: Seq<Seq<u8>>, k: int)
    requires
        0 <= k <= labels.len(),
    ensures
        wire_len(labels.skip(k)) <= wire_len(labels),
    decreases labels.len(),
{
    if k < labels.len() {
        lemma_wire_len_suffix(labels.drop_last(), k);
        assert(labels.skip(k).drop_last() =~= labels.drop_last().skip(k));
    } else {
        assert(labels.skip(k) =~= Seq::empty());
        lemma_wire_len_positive(labels);
    }
}

proof fn lemma_wire_len_positive(labels: Seq<Seq<u8>>)
    ensures
        wire_len(labels) >= 1,
    decreases labels.len(),
{
    if labels.len() > 0 {
        lemma_wire_len_positive(labels.drop_last());
    }
}

/// `tail` ends `labels`, label by label, but for the case of letters.
pub open spec fn ends_in(labels: Seq<Seq<u8>>, tail: Seq<Seq<u8>>) -> bool {
    &&& tail.len() <= labels.len()
    &&& forall|i: int|
        0 <= i < tail.len() ==> {
            let other = labels[labels.len() - tail.len() + i];
            &&& (#[trigger] tail[i]).len() == other.len()
            &&& forall|k: int| 0 <= k < tail[i].len() ==> text::alike(#[trigger] tail[i][k], other[k])
        }
}

/// A name lies in the namespace of an apex exactly if its labels end in all labels
/// of the apex, but for the case of letters.
pub proof fn law_enclosed_names_end_in_all_labels(apex: NameView, name: NameView)
    ensures
        encloses(apex, name) <==> ends_in(name.labels, apex.labels),
{
    if apex.labels.len() <= name.labels.len() {
        let from = name.labels.len() - apex.labels.len();
        let back = name.labels.skip(from);
        assert forall|i: int| 0 <= i < apex.labels.len() implies (text::same_bytes(
            #[trigger] apex.labels[i],
            back[i],
        ) <==> apex.labels[i].len() == name.labels[from + i].len() && forall|k: int|
            0 <= k < apex.labels[i].len() ==> text::alike(
                #[trigger] apex.labels[i][k],
                name.labels[from + i][k],
            )) by {
            text::law_equal_labels_differ_in_case_only(apex.labels[i], back[i]);
        }
        if encloses(apex, name) {
            assert forall|i: int| 0 <= i < apex.labels.len() implies ({
                let other = name.labels[name.labels.len() - apex.labels.len() + i];
                &&& (#[trigger] apex.labels[i]).len() == other.len()
                &&& forall|k: int|
                    0 <= k < apex.labels[i].len() ==> text::alike(
                        #[trigger] apex.labels[i][k],
                        other[k],
                    )
            }) by {
                assert(text::same_bytes(apex.labels[i], back[i]));
            }
        }
        if ends_in(name.labels, apex.labels) {
            assert forall|i: int| 0 <= i < apex.labels.len() implies text::same_bytes(
                #[trigger] apex.labels[i],
                back[i],
            ) by {
                assert(apex.labels[i].len() == name.labels[from + i].len());
            }
        }
    }
}

/// Two names are equal exactly if both are absolute or both are relative, and they
/// have the same labels but for the case of letters.
pub proof fn law_equal_names_have_equal_labels(a: NameView, b: NameView)
    ensures
        same_name(a, b) <==> a.fqdn == b.fqdn && a.labels.len() == b.labels.len() && ends_in(
            a.labels,
            b.labels,
        ),
{
    law_enclosed_names_end_in_all_labels(b, a);
    if a.labels.len() == b.labels.len() {
        assert(a.labels.skip(0) =~= a.labels);
        assert forall|i: int| 0 <= i < a.labels.len() implies (text::same_bytes(
            #[trigger] a.labels[i],
            b.labels[i],
        ) <==> text::same_bytes(b.labels[i], a.labels[i])) by {}
        if same_name(a, b) {
            assert forall|i: int| 0 <= i < b.labels.len() implies text::same_bytes(
                #[trigger] b.labels[i],
                a.labels.skip(0)[i],
            ) by {
                assert(text::same_bytes(a.labels[i], b.labels[i]));
            }
        }
        if encloses(b, a) {
            assert forall|i: int| 0 <= i < a.labels.len() implies text::same_bytes(
                #[trigger] a.labels[i],
                b.labels[i],
            ) by {
                assert(text::same_bytes(b.labels[i], a.labels.skip(0)[i]));
            }
        }
    }
}

/// On the wire, every label takes one octet more than it has, and the root takes
/// one; a name fits if it takes at most 255 and no label is empty or has more than
/// 63.
pub proof fn law_wire_length_adds_up(labels: Seq<Seq<u8>>, label: Seq<u8>)
    ensures
        wire_len(Seq::empty()) == 1,
        wire_len(labels.push(label)) == wire_len(labels) + label.len() + 1,
        labels_fit(labels.push(label)) <==> labels_fit(labels) && 1 <= label.len() <= 63
            && wire_len(labels) + label.len() + 1 <= 255,
{
    let all = labels.push(label);
    assert(all.drop_last() =~= labels);
    assert(all[labels.len() as int] == label);
    if labels_fit(all) {
        assert forall|i: int| 0 <= i < labels.len() implies 1 <= (#[trigger] labels[i]).len()
            <= 63 by {
            assert(all[i] == labels[i]);
        }
    }
    if labels_fit(labels) && 1 <= label.len() <= 63 {
        assert forall|i: int| 0 <= i < all.len() implies 1 <= (#[trigger] all[i]).len() <= 63 by {
            if i < labels.len() {
                assert(all[i] == labels[i]);
            }
        }
    }
}

} // verus!
