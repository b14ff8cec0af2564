//! Processing of test-report text: renaming affixes, secret redaction and
//! attachment collection.
//!
//! The surrounding report transform feeds each piece of report text through
//! these functions; everything here works on plain characters.

use vstd::prelude::*;
use vstd::string::StrSliceExecFns;

use crate::find::{lemma_find_characterizes, occurs_at, spec_find};
use crate::text::{find_chars, lex_lt, str_contains, str_eq, str_lt};

verus! {

/// Whether some entry of `sq` reads `x`.
pub open spec fn has_text(sq: Seq<String>, x: Seq<char>) -> bool {
    exists|i: int| 0 <= i < sq.len() && sq[i]@ == x
}

/// No two neighbouring entries read the same.
pub open spec fn no_adjacent_dups(sq: Seq<String>) -> bool {
    forall|i: int| 0 <= i && i + 1 < sq.len() ==> (#[trigger] sq[i]@) != sq[i + 1]@
}

/// Processes and optionally transforms a test report.
#[derive(Debug, Clone)]
pub struct ReportProcessor {
    test_suite_name_prefix: String,
    test_suite_name_suffix: String,
    test_case_name_prefix: String,
    test_case_name_suffix: String,
    test_case_class_prefix: String,
    test_case_class_suffix: String,
    attachment_prefix: String,
    attachment_windows_paths: bool,
    attachments: Vec<String>,
    secrets: Vec<String>,
}

impl ReportProcessor {

    /// The `test_suite_name_prefix` setting.
    pub closed spec fn suite_prefix(self) -> Seq<char> {
        self.test_suite_name_prefix@
    }

    /// The `test_suite_name_suffix` setting.
    pub closed spec fn suite_suffix(self) -> Seq<char> {
        self.test_suite_name_suffix@
    }

    /// The `test_case_name_prefix` setting.
    pub closed spec fn case_name_prefix(self) -> Seq<char> {
        self.test_case_name_prefix@
    }

    /// The `test_case_name_suffix` setting.
    pub closed spec fn case_name_suffix(self) -> Seq<char> {
        self.test_case_name_suffix@
    }

    /// The `test_case_class_prefix` setting.
    pub closed spec fn case_class_prefix(self) -> Seq<char> {
        self.test_case_class_prefix@
    }

    /// The `test_case_class_suffix` setting.
    pub closed spec fn case_class_suffix(self) -> Seq<char> {
        self.test_case_class_suffix@
    }

    /// The `attachment_prefix` setting.
    pub closed spec fn attach_prefix(self) -> Seq<char> {
        self.attachment_prefix@
    }

    /// Whether collected attachment paths are rendered with backslashes.
    pub closed spec fn windows_paths(self) -> bool {
        self.attachment_windows_paths
    }

    /// The attachment paths collected so far.
    pub closed spec fn attachments_view(self) -> Seq<String> {
        self.attachments@
    }

    /// The texts to redact.
    pub closed spec fn secrets_view(self) -> Seq<String> {
        self.secrets@
    }

    /// A processor with every setting empty.
    pub fn new() -> (r: ReportProcessor)
        ensures
            r.suite_prefix() == Seq::<char>::empty(),
            r.suite_suffix() == Seq::<char>::empty(),
            r.case_name_prefix() == Seq::<char>::empty(),
            r.case_name_suffix() == Seq::<char>::empty(),
            r.case_class_prefix() == Seq::<char>::empty(),
            r.case_class_suffix() == Seq::<char>::empty(),
            r.attach_prefix() == Seq::<char>::empty(),
            !r.windows_paths(),
            r.attachments_view() == Seq::<String>::empty(),
            r.secrets_view() == Seq::<String>::empty(),
    {
        ReportProcessor {
            test_suite_name_prefix: String::new(),
            test_suite_name_suffix: String::new(),
            test_case_name_prefix: String::new(),
            test_case_name_suffix: String::new(),
            test_case_class_prefix: String::new(),
            test_case_class_suffix: String::new(),
            attachment_prefix: String::new(),
            attachment_windows_paths: false,
            attachments: Vec::new(),
            secrets: Vec::new(),
        }
    }

    /// The same settings with the collected attachments cleared.
    pub fn reset(&self) -> (r: ReportProcessor)
        ensures
            r.suite_prefix() == self.suite_prefix(),
            r.suite_suffix() == self.suite_suffix(),
            r.case_name_prefix() == self.case_name_prefix(),
            r.case_name_suffix() == self.case_name_suffix(),
            r.case_class_prefix() == self.case_class_prefix(),
            r.case_class_suffix() == self.case_class_suffix(),
            r.attach_prefix() == self.attach_prefix(),
            r.windows_paths() == self.windows_paths(),
            r.attachments_view() == Seq::<String>::empty(),
            r.secrets_view() == self.secrets_view(),
    {
        ReportProcessor {
            test_suite_name_prefix: self.test_suite_name_prefix.clone(),
            test_suite_name_suffix: self.test_suite_name_suffix.clone(),
            test_case_name_prefix: self.test_case_name_prefix.clone(),
            test_case_name_suffix: self.test_case_name_suffix.clone(),
            test_case_class_prefix: self.test_case_class_prefix.clone(),
            test_case_class_suffix: self.test_case_class_suffix.clone(),
            attachment_prefix: self.attachment_prefix.clone(),
            attachment_windows_paths: self.attachment_windows_paths,
            attachments: Vec::new(),
            secrets: clone_strings(&self.secrets),
        }
    }

    /// Returns the processor with the `test_suite_name_prefix` setting replaced.
    pub fn test_suite_name_prefix(self, test_suite_name_prefix: &str) -> (r: ReportProcessor)
        ensures
            r.suite_prefix() == test_suite_name_prefix@,
            r.suite_suffix() == self.suite_suffix(),
            r.case_name_prefix() == self.case_name_prefix(),
            r.case_name_suffix() == self.case_name_suffix(),
            r.case_class_prefix() == self.case_class_prefix(),
            r.case_class_suffix() == self.case_class_suffix(),
            r.attach_prefix() == self.attach_prefix(),
            r.windows_paths() == self.windows_paths(),
            r.attachments_view() == self.attachments_view(),
            r.secrets_view() == self.secrets_view(),
    {
        ReportProcessor { test_suite_name_prefix: test_suite_name_prefix.to_owned(), ..self }
    }

    /// Returns the processor with the `test_suite_name_suffix` setting replaced.
    pub fn test_suite_name_suffix(self, test_suite_name_suffix: &str) -> (r: ReportProcessor)
        ensures
            r.suite_suffix() == test_suite_name_suffix@,
            r.suite_prefix() == self.suite_prefix(),
            r.case_name_prefix() == self.case_name_prefix(),
            r.case_name_suffix() == self.case_name_suffix(),
            r.case_class_prefix() == self.case_class_prefix(),
            r.case_class_suffix() == self.case_class_suffix(),
            r.attach_prefix() == self.attach_prefix(),
            r.windows_paths() == self.windows_paths(),
            r.attachments_view() == self.attachments_view(),
            r.secrets_view() == self.secrets_view(),
    {
        ReportProcessor { test_suite_name_suffix: test_suite_name_suffix.to_owned(), ..self }
    }

    /// Returns the processor with the `test_case_name_prefix` setting replaced.
    pub fn test_case_name_prefix(self, test_case_name_prefix: &str) -> (r: ReportProcessor)
        ensures
            r.case_name_prefix() == test_case_name_prefix@,
            r.suite_prefix() == self.suite_prefix(),
            r.suite_suffix() == self.suite_suffix(),
            r.case_name_suffix() == self.case_name_suffix(),
            r.case_class_prefix() == self.case_class_prefix(),
            r.case_class_suffix() == self.case_class_suffix(),
            r.attach_prefix() == self.attach_prefix(),
            r.windows_paths() == self.windows_paths(),
            r.attachments_view() == self.attachments_view(),
            r.secrets_view() == self.secrets_view(),
    {
        ReportProcessor { test_case_name_prefix: test_case_name_prefix.to_owned(), ..self }
    }

    /// Returns the processor with the `test_case_name_suffix` setting replaced.
    pub fn test_case_name_suffix(self, test_case_name_suffix: &str) -> (r: ReportProcessor)
        ensures
            r.case_name_suffix() == test_case_name_suffix@,
            r.suite_prefix() == self.suite_prefix(),
            r.suite_suffix() == self.suite_suffix(),
            r.case_name_prefix() == self.case_name_prefix(),
            r.case_class_prefix() == self.case_class_prefix(),
            r.case_class_suffix() == self.case_class_suffix(),
            r.attach_prefix() == self.attach_prefix(),
            r.windows_paths() == self.windows_paths(),
            r.attachments_view() == self.attachments_view(),
            r.secrets_view() == self.secrets_view(),
    {
        ReportProcessor { test_case_name_suffix: test_case_name_suffix.to_owned(), ..self }
    }

    /// Returns the processor with the `test_case_class_prefix` setting replaced.
    pub fn test_case_class_prefix(self, test_case_class_prefix: &str) -> (r: ReportProcessor)
        ensures
            r.case_class_prefix() == test_case_class_prefix@,
            r.suite_prefix() == self.suite_prefix(),
            r.suite_suffix() == self.suite_suffix(),
            r.case_name_prefix() == self.case_name_prefix(),
            r.case_name_suffix() == self.case_name_suffix(),
            r.case_class_suffix() == self.case_class_suffix(),
            r.attach_prefix() == self.attach_prefix(),
            r.windows_paths() == self.windows_paths(),
            r.attachments_view() == self.attachments_view(),
            r.secrets_view() == self.secrets_view(),
    {
        ReportProcessor { test_case_class_prefix: test_case_class_prefix.to_owned(), ..self }
    }

    /// Returns the processor with the `test_case_class_suffix` setting replaced.
    pub fn test_case_class_suffix(self, test_case_class_suffix: &str) -> (r: ReportProcessor)
        ensures
            r.case_class_suffix() == test_case_class_suffix@,
            r.suite_prefix() == self.suite_prefix(),
            r.suite_suffix() == self.suite_suffix(),
            r.case_name_prefix() == self.case_name_prefix(),
            r.case_name_suffix() == self.case_name_suffix(),
            r.case_class_prefix() == self.case_class_prefix(),
            r.attach_prefix() == self.attach_prefix(),
            r.windows_paths() == self.windows_paths(),
            r.attachments_view() == self.attachments_view(),
            r.secrets_view() == self.secrets_view(),
    {
        ReportProcessor { test_case_class_suffix: test_case_class_suffix.to_owned(), ..self }
    }

    /// Returns the processor with the `attachment_prefix` setting replaced.
    pub fn attachment_prefix(self, attachment_prefix: &str) -> (r: ReportProcessor)
        ensures
            r.attach_prefix() == attachment_prefix@,
            r.suite_prefix() == self.suite_prefix(),
            r.suite_suffix() == self.suite_suffix(),
            r.case_name_prefix() == self.case_name_prefix(),
            r.case_name_suffix() == self.case_name_suffix(),
            r.case_class_prefix() == self.case_class_prefix(),
            r.case_class_suffix() == self.case_class_suffix(),
            r.windows_paths() == self.windows_paths(),
            r.attachments_view() == self.attachments_view(),
            r.secrets_view() == self.secrets_view(),
    {
        ReportProcessor { attachment_prefix: attachment_prefix.to_owned(), ..self }
    }

    /// Returns the processor with attachment paths rendered for Windows.
    pub fn attachment_windows_paths(self, value: bool) -> (r: ReportProcessor)
        ensures
            r.windows_paths() == value,
            r.suite_prefix() == self.suite_prefix(),
            r.suite_suffix() == self.suite_suffix(),
            r.case_name_prefix() == self.case_name_prefix(),
            r.case_name_suffix() == self.case_name_suffix(),
            r.case_class_prefix() == self.case_class_prefix(),
            r.case_class_suffix() == self.case_class_suffix(),
            r.attach_prefix() == self.attach_prefix(),
            r.attachments_view() == self.attachments_view(),
            r.secrets_view() == self.secrets_view(),
    {
        ReportProcessor { attachment_windows_paths: value, ..self }
    }

    /// The attachment paths collected so far.
    pub fn attachments(&self) -> (r: Vec<&str>)
        ensures
            r@.len() == self.attachments_view().len(),
            forall|i: int|
                0 <= i < r@.len() ==> r@[i]@ == self.attachments_view()[i]@,
    {
        let mut out: Vec<&str> = Vec::new();
        let mut i: usize = 0;
        while i < self.attachments.len()
            invariant
                0 <= i <= self.attachments@.len(),
                out@.len() == i,
                forall|q: int| 0 <= q < i ==> out@[q]@ == self.attachments@[q]@,
            decreases self.attachments@.len() - i,
        {
            out.push(self.attachments[i].as_str());
            i += 1;
        }
        out
    }

    /// Returns the processor with one more text to redact; the stored list
    /// is reordered so that containing texts come first where the order can
    /// tell, and duplicates that end up adjacent are dropped.
    pub fn secret(self, secret: &str) -> (r: ReportProcessor)
        ensures
            r.suite_prefix() == self.suite_prefix(),
            r.suite_suffix() == self.suite_suffix(),
            r.case_name_prefix() == self.case_name_prefix(),
            r.case_name_suffix() == self.case_name_suffix(),
            r.case_class_prefix() == self.case_class_prefix(),
            r.case_class_suffix() == self.case_class_suffix(),
            r.attach_prefix() == self.attach_prefix(),
            r.windows_paths() == self.windows_paths(),
            r.attachments_view() == self.attachments_view(),
            forall|x: Seq<char>|
                has_text(r.secrets_view(), x) <==> (has_text(self.secrets_view(), x) || x
                    == secret@),
            no_adjacent_dups(r.secrets_view()),
            locally_ordered(true, r.secrets_view()),
    {
        let ReportProcessor {
            test_suite_name_prefix,
            test_suite_name_suffix,
            test_case_name_prefix,
            test_case_name_suffix,
            test_case_class_prefix,
            test_case_class_suffix,
            attachment_prefix,
            attachment_windows_paths,
            attachments,
            secrets,
        } = self;
        let mut secrets = secrets;
        secrets.push(secret.to_owned());
        proof {
            assert forall|x: Seq<char>|
                has_text(secrets@, x) == (has_text(self.secrets_view(), x) || x
                    == secret@) by {
                if has_text(secrets@, x) {
                    let i = choose|i: int| 0 <= i < secrets@.len() && secrets@[i]@ == x;
                    if i < secrets@.len() - 1 {
                        assert(self.secrets_view()[i]@ == x);
                    }
                }
                if has_text(self.secrets_view(), x) {
                    let i = choose|i: int|
                        0 <= i < self.secrets_view().len() && self.secrets_view()[i]@ == x;
                    assert(secrets@[i]@ == x);
                }
                if x == secret@ {
                    assert(secrets@[secrets@.len() - 1]@ == x);
                }
            }
        }
        let secrets = sort_texts(secrets, true);
        let secrets = dedup_adjacent(secrets);
        ReportProcessor {
            test_suite_name_prefix,
            test_suite_name_suffix,
            test_case_name_prefix,
            test_case_name_suffix,
            test_case_class_prefix,
            test_case_class_suffix,
            attachment_prefix,
            attachment_windows_paths,
            attachments,
            secrets,
        }
    }

    /// Returns the processor with the texts to redact replaced wholesale,
    /// ordered and deduplicated as [`ReportProcessor::secret`] orders them.
    pub fn secrets(self, secrets: &[&str]) -> (r: ReportProcessor)
        ensures
            r.suite_prefix() == self.suite_prefix(),
            r.suite_suffix() == self.suite_suffix(),
            r.case_name_prefix() == self.case_name_prefix(),
            r.case_name_suffix() == self.case_name_suffix(),
            r.case_class_prefix() == self.case_class_prefix(),
            r.case_class_suffix() == self.case_class_suffix(),
            r.attach_prefix() == self.attach_prefix(),
            r.windows_paths() == self.windows_paths(),
            r.attachments_view() == self.attachments_view(),
            forall|x: Seq<char>|
                has_text(r.secrets_view(), x) <==> (exists|i: int|
                    0 <= i < secrets@.len() && secrets@[i]@ == x),
            no_adjacent_dups(r.secrets_view()),
            locally_ordered(true, r.secrets_view()),
    {
        let ReportProcessor {
            test_suite_name_prefix,
            test_suite_name_suffix,
            test_case_name_prefix,
            test_case_name_suffix,
            test_case_class_prefix,
            test_case_class_suffix,
            attachment_prefix,
            attachment_windows_paths,
            attachments,
            secrets: _old_secrets,
        } = self;
        let mut gathered: Vec<String> = Vec::new();
        let mut i: usize = 0;
        while i < secrets.len()
            invariant
                0 <= i <= secrets@.len(),
                gathered@.len() == i,
                forall|q: int| 0 <= q < i ==> gathered@[q]@ == secrets@[q]@,
            decreases secrets@.len() - i,
        {
            let entry: &str = secrets[i];
            gathered.push(entry.to_owned());
            i += 1;
        }
        proof {
            assert forall|x: Seq<char>|
                has_text(gathered@, x) == (exists|q: int|
                    0 <= q < secrets@.len() && secrets@[q]@ == x) by {
                if has_text(gathered@, x) {
                    let q = choose|q: int| 0 <= q < gathered@.len() && gathered@[q]@ == x;
                    assert(secrets@[q]@ == x);
                }
                if exists|q: int| 0 <= q < secrets@.len() && secrets@[q]@ == x {
                    let q = choose|q: int| 0 <= q < secrets@.len() && secrets@[q]@ == x;
                    assert(gathered@[q]@ == x);
                }
            }
        }
        let gathered = sort_texts(gathered, true);
        let gathered = dedup_adjacent(gathered);
        ReportProcessor {
            test_suite_name_prefix,
            test_suite_name_suffix,
            test_case_name_prefix,
            test_case_name_suffix,
            test_case_class_prefix,
            test_case_class_suffix,
            attachment_prefix,
            attachment_windows_paths,
            attachments,
            secrets: gathered,
        }
    }
}

/// An element-for-element copy of a list of strings.
fn clone_strings(v: &Vec<String>) -> (r: Vec<String>)
    ensures
        r@ == v@,
{
    let mut out: Vec<String> = Vec::new();
    let mut i: usize = 0;
    while i < v.len()
        invariant
            0 <= i <= v@.len(),
            out@ =~= v@.take(i as int),
        decreases v@.len() - i,
    {
        out.push(v[i].clone());
        i += 1;
    }
    proof {
        assert(v@.take(v@.len() as int) =~= v@);
    }
    out
}

/// In a list whose neighbours ascend strictly, every earlier entry orders
/// before every later one.
proof fn lemma_ascending_chain(s: Seq<String>, i: int, j: int)
    requires
        forall|w: int| 0 <= w && w + 1 < s.len() ==> lex_lt((#[trigger] s[w])@, s[w + 1]@),
        0 <= i < j < s.len(),
    ensures
        lex_lt(s[i]@, s[j]@),
    decreases j - i,
{
    if j > i + 1 {
        lemma_ascending_chain(s, i, j - 1);
        crate::text::lemma_lex_trans(s[i]@, s[j - 1]@, s[j]@);
    }
}

/// The redaction ordering on texts: equal texts tie, a text containing the
/// other comes first, and otherwise character order decides.
pub open spec fn spec_secret_less(a: Seq<char>, b: Seq<char>) -> bool {
    if a == b {
        false
    } else if spec_find(a, b) is Some {
        true
    } else if spec_find(b, a) is Some {
        false
    } else {
        lex_lt(a, b)
    }
}

/// The order a sorting pass uses: the redaction ordering for secrets, plain
/// character order for attachment listings.
pub open spec fn order_before(containment_first: bool, a: Seq<char>, b: Seq<char>) -> bool {
    if containment_first {
        spec_secret_less(a, b)
    } else {
        lex_lt(a, b)
    }
}

/// No entry orders before its left neighbour.
pub open spec fn locally_ordered(containment_first: bool, s: Seq<String>) -> bool {
    forall|i: int|
        0 <= i && i + 1 < s.len() ==> !order_before(
            containment_first,
            (#[trigger] s[i + 1])@,
            s[i]@,
        )
}

/// Texts never order before each other both ways.
proof fn lemma_order_asym(containment_first: bool, a: Seq<char>, b: Seq<char>)
    requires
        order_before(containment_first, a, b),
    ensures
        !order_before(containment_first, b, a),
{
    if containment_first {
        if spec_find(a, b) is Some && spec_find(b, a) is Some {
            lemma_find_characterizes(a, b);
            lemma_find_characterizes(b, a);
            let i = spec_find(a, b) -> Some_0;
            let j = spec_find(b, a) -> Some_0;
            assert(occurs_at(a, b, i));
            assert(occurs_at(b, a, j));
            assert(a.len() == b.len());
            assert(i == 0);
            assert(a.subrange(0, b.len() as int) =~= a);
            assert(a == b);
        } else if spec_find(a, b) is None && spec_find(b, a) is None && a != b {
            if lex_lt(b, a) {
                crate::text::lemma_lex_trans(a, b, a);
                crate::text::lemma_lex_irrefl(a);
            }
        }
    } else {
        if lex_lt(b, a) {
            crate::text::lemma_lex_trans(a, b, a);
            crate::text::lemma_lex_irrefl(a);
        }
    }
}

/// Whether `a` belongs in front of `b` under the chosen order.
fn text_before(containment_first: bool, a: &str, b: &str) -> (r: bool)
    ensures
        r == order_before(containment_first, a@, b@),
{
    if containment_first {
        secret_less(a, b)
    } else {
        plain_less(a, b)
    }
}

/// Whether `a` should sort before `b` when ordering redaction texts.
fn secret_less(a: &str, b: &str) -> (r: bool)
    ensures
        r == spec_secret_less(a@, b@),
{
    if str_eq(a, b) {
        false
    } else if str_contains(a, b) {
        true
    } else if str_contains(b, a) {
        false
    } else {
        str_lt(a, b)
    }
}

/// Plain character order, for attachment listings.
fn plain_less(a: &str, b: &str) -> (r: bool)
    ensures
        r == lex_lt(a@, b@),
{
    str_lt(a, b)
}

/// Orders a list of texts by inserting each into place: the result holds
/// exactly the same texts, and no entry orders before its left neighbour.
fn sort_texts(v: Vec<String>, containment_first: bool) -> (r: Vec<String>)
    ensures
        forall|x: Seq<char>| has_text(r@, x) == has_text(v@, x),
        locally_ordered(containment_first, r@),
{
    let mut out: Vec<String> = Vec::new();
    let mut i: usize = 0;
    proof {
        assert(v@.take(0) =~= Seq::<String>::empty());
    }
    while i < v.len()
        invariant
            0 <= i <= v@.len(),
            forall|x: Seq<char>| has_text(out@, x) == has_text(v@.take(i as int), x),
            locally_ordered(containment_first, out@),
        decreases v@.len() - i,
    {
        let x = v[i].clone();
        let mut q: usize = 0;
        while q < out.len() && !text_before(containment_first, x.as_str(), out[q].as_str())
            invariant
                0 <= q <= out@.len(),
                x == v@[i as int],
                i < v@.len(),
                forall|w: int|
                    0 <= w < q ==> !order_before(
                        containment_first,
                        x@,
                        (#[trigger] out@[w])@,
                    ),
            decreases out@.len() - q,
        {
            q += 1;
        }
        let ghost hit = q < out@.len();
        let ghost before = out@;
        proof {
            assert(forall|w: int|
                0 <= w < q ==> !order_before(containment_first, x@, (#[trigger] before[w])@));
            if hit {
                assert(order_before(containment_first, x@, before[q as int]@));
            }
        }
        out.insert(q, x);
        proof {
            before.insert_ensures(q as int, x);
            assert(out@ == before.insert(q as int, x));
            assert forall|y: Seq<char>|
                has_text(out@, y) == has_text(v@.take(i + 1), y) by {
                if has_text(out@, y) {
                    let w = choose|w: int| 0 <= w < out@.len() && out@[w]@ == y;
                    if w == q {
                        assert(v@.take(i + 1)[i as int]@ == y);
                        assert(has_text(v@.take(i + 1), y));
                    } else {
                        let old_w: int = if w < q {
                            w
                        } else {
                            w - 1
                        };
                        assert(before[old_w]@ == y);
                        assert(has_text(before, y));
                        assert(has_text(v@.take(i as int), y));
                        let u = choose|u: int|
                            0 <= u < v@.take(i as int).len() && v@.take(i as int)[u]@ == y;
                        assert(v@.take(i + 1)[u]@ == y);
                        assert(has_text(v@.take(i + 1), y));
                    }
                }
                if has_text(v@.take(i + 1), y) {
                    let u = choose|u: int|
                        0 <= u < v@.take(i + 1).len() && (#[trigger] v@.take(i + 1)[u])@ == y;
                    if u == i {
                        assert(out@[q as int]@ == y);
                        assert(has_text(out@, y));
                    } else {
                        assert(v@.take(i as int)[u]@ == y);
                        assert(has_text(v@.take(i as int), y));
                        assert(has_text(before, y));
                        let w = choose|w: int| 0 <= w < before.len() && before[w]@ == y;
                        let new_w: int = if w < q {
                            w
                        } else {
                            w + 1
                        };
                        assert(out@[new_w]@ == y);
                        assert(has_text(out@, y));
                    }
                }
            }
            assert forall|w: int|
                0 <= w && w + 1 < out@.len() implies !order_before(
                containment_first,
                (#[trigger] out@[w + 1])@,
                out@[w]@,
            ) by {
                if w + 1 < q {
                    assert(out@[w] == before[w]);
                    assert(out@[w + 1] == before[w + 1]);
                } else if w + 1 == q {
                    assert(out@[w] == before[w]);
                    assert(out@[w + 1] == x);
                } else if w == q {
                    assert(out@[w] == x);
                    assert(out@[w + 1] == before[w]);
                    assert(hit && order_before(containment_first, x@, before[q as int]@));
                    lemma_order_asym(containment_first, x@, before[q as int]@);
                } else {
                    assert(out@[w] == before[w - 1]);
                    assert(out@[w + 1] == before[w]);
                }
            }
        }
        i += 1;
    }
    proof {
        assert(v@.take(v@.len() as int) =~= v@);
    }
    out
}

/// Drops entries that repeat their left neighbour, keeping the collection
/// of texts.
fn dedup_adjacent(v: Vec<String>) -> (r: Vec<String>)
    ensures
        forall|x: Seq<char>| has_text(r@, x) == has_text(v@, x),
        no_adjacent_dups(r@),
        forall|cf: bool| locally_ordered(cf, v@) ==> locally_ordered(cf, r@),
{
    let mut out: Vec<String> = Vec::new();
    let mut i: usize = 0;
    while i < v.len()
        invariant
            0 <= i <= v@.len(),
            forall|x: Seq<char>| has_text(out@, x) == has_text(v@.take(i as int), x),
            no_adjacent_dups(out@),
            forall|cf: bool| locally_ordered(cf, v@) ==> locally_ordered(cf, out@),
            i > 0 ==> out@.len() > 0 && out@[out@.len() - 1]@ == v@[i - 1]@,
        decreases v@.len() - i,
    {
        let keep = if i == 0 {
            true
        } else {
            !str_eq(v[i].as_str(), v[i - 1].as_str())
        };
        let ghost before = out@;
        if keep {
            out.push(v[i].clone());
        }
        proof {
            assert forall|x: Seq<char>|
                has_text(out@, x) == has_text(v@.take(i + 1), x) by {
                if has_text(out@, x) {
                    let q = choose|q: int| 0 <= q < out@.len() && out@[q]@ == x;
                    if q < before.len() {
                        assert(before[q]@ == x);
                        assert(has_text(before, x));
                        assert(has_text(v@.take(i as int), x));
                        let w = choose|w: int|
                            0 <= w < v@.take(i as int).len() && v@.take(i as int)[w]@ == x;
                        assert(0 <= w < v@.take(i + 1).len());
                        assert(v@.take(i + 1)[w]@ == x);
                        assert(has_text(v@.take(i + 1), x));
                    } else {
                        assert(out@[q] == v@[i as int]);
                        assert(v@.take(i + 1)[i as int]@ == x);
                        assert(has_text(v@.take(i + 1), x));
                    }
                }
                if has_text(v@.take(i + 1), x) {
                    let q = choose|q: int|
                        0 <= q < v@.take(i + 1).len() && (#[trigger] v@.take(i + 1)[q])@ == x;
                    if q < i {
                        assert(v@.take(i as int)[q]@ == x);
                        assert(has_text(v@.take(i as int), x));
                        assert(has_text(before, x));
                        let w = choose|w: int| 0 <= w < before.len() && before[w]@ == x;
                        assert(out@[w]@ == x);
                        assert(has_text(out@, x));
                    } else {
                        assert(v@[i as int]@ == x);
                        if keep {
                            assert(out@[out@.len() - 1]@ == x);
                            assert(has_text(out@, x));
                        } else {
                            assert(v@[i as int]@ == v@[i - 1]@);
                            assert(v@.take(i as int)[i - 1]@ == x);
                            assert(has_text(v@.take(i as int), x));
                            assert(has_text(before, x));
                            let w = choose|w: int| 0 <= w < before.len() && before[w]@ == x;
                            assert(out@[w]@ == x);
                            assert(has_text(out@, x));
                        }
                    }
                }
            }
            if keep {
                assert forall|q: int|
                    0 <= q && q + 1 < out@.len() implies (#[trigger] out@[q]@) != out@[q + 1]@ by {
                    if q + 1 == out@.len() - 1 {
                        assert(q + 1 == before.len());
                        if i == 0 {
                            assert(has_text(before, before[q]@));
                            assert(has_text(v@.take(0int), before[q]@));
                            assert(false);
                        }
                        assert(out@[q] == before[q]);
                        assert(out@[q]@ == v@[i - 1]@);
                        assert(out@[q + 1]@ == v@[i as int]@);
                    } else {
                        assert(out@[q]@ == before[q]@);
                        assert(out@[q + 1]@ == before[q + 1]@);
                    }
                }
            }
            assert forall|cf: bool| locally_ordered(cf, v@) implies locally_ordered(
                cf,
                out@,
            ) by {
                assert forall|q: int|
                    0 <= q && q + 1 < out@.len() implies !order_before(
                    cf,
                    (#[trigger] out@[q + 1])@,
                    out@[q]@,
                ) by {
                    if q + 1 < before.len() {
                        assert(out@[q] == before[q]);
                        assert(out@[q + 1] == before[q + 1]);
                    } else {
                        assert(keep && q + 1 == before.len());
                        assert(out@[q] == before[q]);
                        assert(out@[q + 1]@ == v@[i as int]@);
                        if i == 0 {
                            assert(has_text(before, before[q]@));
                            assert(has_text(v@.take(0int), before[q]@));
                            assert(false);
                        }
                        assert(out@[q]@ == v@[i - 1]@);
                        let gi = i - 1;
                        assert(0 <= gi && gi + 1 < v@.len());
                        assert(!order_before(cf, (#[trigger] v@[gi + 1])@, v@[gi]@));
                    }
                }
            }
        }
        i += 1;
    }
    proof {
        assert(v@.take(v@.len() as int) =~= v@);
    }
    out
}


/// `s` with every occurrence of `pat` replaced by `rep`, scanning left to
/// right and never re-examining replaced text.
pub open spec fn spec_replace(s: Seq<char>, pat: Seq<char>, rep: Seq<char>) -> Seq<char>
    decreases s.len(),
{
    if pat.len() == 0 {
        s
    } else {
        match spec_find(s, pat) {
            Some(i) => if 0 <= i && i + pat.len() <= s.len() {
                s.take(i) + rep + spec_replace(s.skip(i + pat.len()), pat, rep)
            } else {
                s
            },
            None => s,
        }
    }
}

/// `s` with the first `i` stored secrets redacted, in order.
pub open spec fn spec_redact(s: Seq<char>, secrets: Seq<String>, i: int) -> Seq<char>
    decreases i,
{
    if i <= 0 {
        s
    } else {
        spec_replace(spec_redact(s, secrets, i - 1), secrets[i - 1]@, "****"@)
    }
}

/// `text` with every occurrence of `pat` replaced by `rep`.
fn replace_all(text: &str, pat: &str, rep: &str) -> (r: String)
    ensures
        r@ == spec_replace(text@, pat@, rep@),
{
    let plen = pat.unicode_len();
    if plen == 0 {
        return text.to_owned();
    }
    let mut out = String::new();
    let mut pos: usize = 0;
    let tlen = text.unicode_len();
    proof {
        assert(text@.skip(0) =~= text@);
        assert(Seq::<char>::empty() + spec_replace(text@, pat@, rep@) =~= spec_replace(
            text@,
            pat@,
            rep@,
        ));
    }
    loop
        invariant
            0 <= pos <= tlen,
            tlen == text@.len(),
            plen == pat@.len(),
            plen >= 1,
            out@ + spec_replace(text@.skip(pos as int), pat@, rep@) == spec_replace(
                text@,
                pat@,
                rep@,
            ),
        decreases tlen - pos,
    {
        match find_chars(text, pos, pat) {
            Some(k) => {
                let seg = text.substring_char(pos, k);
                out.append(seg);
                out.append(rep);
                proof {
                    let t = text@.skip(pos as int);
                    assert(t.take(k - pos) =~= text@.subrange(pos as int, k as int));
                    assert(t.skip(k - pos + plen) =~= text@.skip(k + plen));
                }
                pos = k + plen;
            },
            None => {
                let seg = text.substring_char(pos, tlen);
                out.append(seg);
                proof {
                    assert(text@.subrange(pos as int, tlen as int) =~= text@.skip(pos as int));
                }
                return out;
            },
        }
    }
}

impl ReportProcessor {
    /// `text` with every stored secret replaced by `****`, each secret
    /// applied in stored order.
    pub fn redact(&self, text: &str) -> (r: String)
        ensures
            r@ == spec_redact(text@, self.secrets_view(), self.secrets_view().len() as int),
    {
        let mut cur: String = text.to_owned();
        let mut i: usize = 0;
        while i < self.secrets.len()
            invariant
                0 <= i <= self.secrets@.len(),
                cur@ == spec_redact(text@, self.secrets@, i as int),
            decreases self.secrets@.len() - i,
        {
            cur = replace_all(cur.as_str(), self.secrets[i].as_str(), "****");
            i += 1;
        }
        cur
    }
}

impl ReportProcessor {

    /// The `test_suite_name_prefix` setting, readably.
    pub fn get_test_suite_name_prefix(&self) -> (r: &String)
        ensures
            r@ == self.suite_prefix(),
    {
        &self.test_suite_name_prefix
    }

    /// The `test_suite_name_suffix` setting, readably.
    pub fn get_test_suite_name_suffix(&self) -> (r: &String)
        ensures
            r@ == self.suite_suffix(),
    {
        &self.test_suite_name_suffix
    }

    /// The `test_case_name_prefix` setting, readably.
    pub fn get_test_case_name_prefix(&self) -> (r: &String)
        ensures
            r@ == self.case_name_prefix(),
    {
        &self.test_case_name_prefix
    }

    /// The `test_case_name_suffix` setting, readably.
    pub fn get_test_case_name_suffix(&self) -> (r: &String)
        ensures
            r@ == self.case_name_suffix(),
    {
        &self.test_case_name_suffix
    }

    /// The `test_case_class_prefix` setting, readably.
    pub fn get_test_case_class_prefix(&self) -> (r: &String)
        ensures
            r@ == self.case_class_prefix(),
    {
        &self.test_case_class_prefix
    }

    /// The `test_case_class_suffix` setting, readably.
    pub fn get_test_case_class_suffix(&self) -> (r: &String)
        ensures
            r@ == self.case_class_suffix(),
    {
        &self.test_case_class_suffix
    }

    /// The `attachment_prefix` setting, readably.
    pub fn get_attachment_prefix(&self) -> (r: &String)
        ensures
            r@ == self.attach_prefix(),
    {
        &self.attachment_prefix
    }

    /// Whether attachment paths are rendered with backslashes, readably.
    pub fn get_attachment_windows_paths(&self) -> (r: bool)
        ensures
            r == self.windows_paths(),
    {
        self.attachment_windows_paths
    }

    /// Records one attachment path encountered in report text.
    pub fn record_attachment(&mut self, path: &str)
        ensures
            final(self).suite_prefix() == old(self).suite_prefix(),
            final(self).suite_suffix() == old(self).suite_suffix(),
            final(self).case_name_prefix() == old(self).case_name_prefix(),
            final(self).case_name_suffix() == old(self).case_name_suffix(),
            final(self).case_class_prefix() == old(self).case_class_prefix(),
            final(self).case_class_suffix() == old(self).case_class_suffix(),
            final(self).attach_prefix() == old(self).attach_prefix(),
            final(self).windows_paths() == old(self).windows_paths(),
            final(self).secrets_view() == old(self).secrets_view(),
            final(self).attachments_view().len() == old(self).attachments_view().len() + 1,
            forall|i: int|
                0 <= i < old(self).attachments_view().len() ==> final(self).attachments_view()[i]
                    == old(self).attachments_view()[i],
            final(self).attachments_view()[final(self).attachments_view().len() - 1]@ == path@,
    {
        self.attachments.push(path.to_owned());
    }

    /// Orders the collected attachment paths and drops duplicates: the
    /// list a finished report run leaves is strictly ascending in
    /// character order, so no path appears twice.
    pub fn finish_attachments(&mut self)
        ensures
            final(self).suite_prefix() == old(self).suite_prefix(),
            final(self).suite_suffix() == old(self).suite_suffix(),
            final(self).case_name_prefix() == old(self).case_name_prefix(),
            final(self).case_name_suffix() == old(self).case_name_suffix(),
            final(self).case_class_prefix() == old(self).case_class_prefix(),
            final(self).case_class_suffix() == old(self).case_class_suffix(),
            final(self).attach_prefix() == old(self).attach_prefix(),
            final(self).windows_paths() == old(self).windows_paths(),
            final(self).secrets_view() == old(self).secrets_view(),
            forall|x: Seq<char>|
                has_text(final(self).attachments_view(), x) == has_text(
                    old(self).attachments_view(),
                    x,
                ),
            no_adjacent_dups(final(self).attachments_view()),
            forall|i: int, j: int|
                0 <= i < j < final(self).attachments_view().len() ==> lex_lt(
                    (#[trigger] final(self).attachments_view()[i])@,
                    (#[trigger] final(self).attachments_view()[j])@,
                ) && final(self).attachments_view()[i]@ != final(self).attachments_view()[j]@,
    {
        let mut attachments: Vec<String> = Vec::new();
        core::mem::swap(&mut attachments, &mut self.attachments);
        let attachments = sort_texts(attachments, false);
        self.attachments = dedup_adjacent(attachments);
        proof {
            let done = self.attachments@;
            assert forall|w: int|
                0 <= w && w + 1 < done.len() implies lex_lt(
                (#[trigger] done[w])@,
                done[w + 1]@,
            ) by {
                crate::text::lemma_lex_total(done[w]@, done[w + 1]@);
            }
            assert forall|i: int, j: int| 0 <= i < j < done.len() implies lex_lt(
                (#[trigger] done[i])@,
                (#[trigger] done[j])@,
            ) && done[i]@ != done[j]@ by {
                lemma_ascending_chain(done, i, j);
                crate::text::lemma_lex_irrefl(done[i]@);
            }
        }
    }
}

/// The run of characters that opens an attachment reference.
pub open spec fn attachment_mark() -> Seq<char> {
    "[[ATTACHMENT|"@
}

/// One pass over report text, rewriting every complete attachment
/// reference `[[ATTACHMENT|path]]`.
///
/// The result pairs the rewritten text with the referenced paths in order
/// of appearance, each normalised to forward slashes.  In the text the
/// `prefix` is inserted before the path, and with `windows` set the path is
/// rendered with backslashes.  An opening run not followed by a non-empty,
/// `]`-free path and a closing `]]` is ordinary text.
pub open spec fn spec_rewrite(s: Seq<char>, prefix: Seq<char>, windows: bool) -> (
    Seq<char>,
    Seq<Seq<char>>,
)
    decreases s.len(),
{
    match spec_find(s, attachment_mark()) {
        Some(i) => if 0 <= i && i + 13 <= s.len() {
            let after = s.skip(i + 13);
            match spec_find(after, "]"@) {
                Some(j) => if 1 <= j && j + 2 <= after.len() && after[j + 1] == ']' {
                    let path = after.take(j);
                    let norm = spec_replace(path, "\\"@, "/"@);
                    let shown = if windows {
                        spec_replace(path, "/"@, "\\"@)
                    } else {
                        path
                    };
                    let rest = spec_rewrite(after.skip(j + 2), prefix, windows);
                    (
                        s.take(i) + attachment_mark() + prefix + shown + "]]"@ + rest.0,
                        seq![norm] + rest.1,
                    )
                } else {
                    if i + 1 <= s.len() {
                        let rest = spec_rewrite(s.skip(i + 1), prefix, windows);
                        (s.take(i + 1) + rest.0, rest.1)
                    } else {
                        (s, Seq::empty())
                    }
                },
                None => (s, Seq::empty()),
            }
        } else {
            (s, Seq::empty())
        },
        None => (s, Seq::empty()),
    }
}

/// The texts of a list of strings.
pub open spec fn views_of(s: Seq<String>) -> Seq<Seq<char>> {
    s.map_values(|x: String| x@)
}

impl ReportProcessor {
    /// Rewrites every complete attachment reference in `text` and records
    /// the referenced paths, exactly as [`spec_rewrite`] lays the result
    /// out: the stored prefix inserted, paths recorded with separators
    /// normalised to `/`, and backslash rendering when configured.
    #[verifier::rlimit(100)]
    pub fn rewrite_attachments(&mut self, text: &str) -> (r: String)
        ensures
            final(self).suite_prefix() == old(self).suite_prefix(),
            final(self).suite_suffix() == old(self).suite_suffix(),
            final(self).case_name_prefix() == old(self).case_name_prefix(),
            final(self).case_name_suffix() == old(self).case_name_suffix(),
            final(self).case_class_prefix() == old(self).case_class_prefix(),
            final(self).case_class_suffix() == old(self).case_class_suffix(),
            final(self).attach_prefix() == old(self).attach_prefix(),
            final(self).windows_paths() == old(self).windows_paths(),
            final(self).secrets_view() == old(self).secrets_view(),
            r@ == spec_rewrite(text@, old(self).attach_prefix(), old(self).windows_paths()).0,
            final(self).attachments_view().len() >= old(self).attachments_view().len(),
            forall|i: int|
                0 <= i < old(self).attachments_view().len() ==> final(self).attachments_view()[i]
                    == old(self).attachments_view()[i],
            views_of(final(self).attachments_view().skip(old(self).attachments_view().len() as int))
                == spec_rewrite(text@, old(self).attach_prefix(), old(self).windows_paths()).1,
    {
        let ghost pfx = self.attach_prefix();
        let ghost win = self.windows_paths();
        let ghost base = self.attachments@;
        let prefix = self.attachment_prefix.clone();
        let windows = self.attachment_windows_paths;
        let mut out = String::new();
        let mut pos: usize = 0;
        let tlen = text.unicode_len();
        proof {
            reveal_strlit("[[ATTACHMENT|");
            reveal_strlit("]");
            reveal_strlit("]]");
            assert(text@.skip(0) =~= text@);
            assert(self.attachments@.skip(base.len() as int) =~= Seq::<String>::empty());
            assert(views_of(Seq::<String>::empty()) =~= Seq::<Seq<char>>::empty());
            assert(Seq::<char>::empty() + spec_rewrite(text@, pfx, win).0 =~= spec_rewrite(
                text@,
                pfx,
                win,
            ).0);
            assert(Seq::<Seq<char>>::empty() + spec_rewrite(text@, pfx, win).1 =~= spec_rewrite(
                text@,
                pfx,
                win,
            ).1);
        }
        loop
            invariant
                0 <= pos <= tlen,
                tlen == text@.len(),
                prefix@ == pfx,
                windows == win,
                pfx == self.attach_prefix(),
                win == self.windows_paths(),
                self.suite_prefix() == old(self).suite_prefix(),
                self.suite_suffix() == old(self).suite_suffix(),
                self.case_name_prefix() == old(self).case_name_prefix(),
                self.case_name_suffix() == old(self).case_name_suffix(),
                self.case_class_prefix() == old(self).case_class_prefix(),
                self.case_class_suffix() == old(self).case_class_suffix(),
                self.attach_prefix() == old(self).attach_prefix(),
                self.windows_paths() == old(self).windows_paths(),
                self.secrets_view() == old(self).secrets_view(),
                base == old(self).attachments_view(),
                self.attachments@.len() >= base.len(),
                forall|i: int| 0 <= i < base.len() ==> self.attachments@[i] == base[i],
                out@ + spec_rewrite(text@.skip(pos as int), pfx, win).0 == spec_rewrite(
                    text@,
                    pfx,
                    win,
                ).0,
                views_of(self.attachments@.skip(base.len() as int)) + spec_rewrite(
                    text@.skip(pos as int),
                    pfx,
                    win,
                ).1 == spec_rewrite(text@, pfx, win).1,
            decreases tlen - pos,
        {
            let ghost t = text@.skip(pos as int);
            proof {
                reveal_strlit("[[ATTACHMENT|");
                reveal_strlit("]");
                reveal_strlit("]]");
            }
            let i_abs = match find_chars(text, pos, "[[ATTACHMENT|") {
                None => {
                    let seg = text.substring_char(pos, tlen);
                    out.append(seg);
                    proof {
                        assert(text@.subrange(pos as int, tlen as int) =~= t);
                        assert(out@ == spec_rewrite(text@, pfx, win).0);
                        assert(views_of(self.attachments@.skip(base.len() as int))
                            + Seq::<Seq<char>>::empty() =~= views_of(
                            self.attachments@.skip(base.len() as int),
                        ));
                    }
                    return out;
                },
                Some(i_abs) => i_abs,
            };
            let ghost i_rel = i_abs - pos;
            let ghost after = t.skip(i_rel + 13);
            proof {
                assert(after =~= text@.skip(i_abs + 13));
            }
            let close = match find_chars(text, i_abs + 13, "]") {
                None => {
                    let seg = text.substring_char(pos, tlen);
                    out.append(seg);
                    proof {
                        assert(text@.subrange(pos as int, tlen as int) =~= t);
                        assert(out@ == spec_rewrite(text@, pfx, win).0);
                        assert(views_of(self.attachments@.skip(base.len() as int))
                            + Seq::<Seq<char>>::empty() =~= views_of(
                            self.attachments@.skip(base.len() as int),
                        ));
                    }
                    return out;
                },
                Some(j_abs) => j_abs,
            };
            let ghost j_rel = close - (i_abs + 13);
            let complete = close > i_abs + 13 && close + 1 < tlen && text.get_char(close + 1)
                == ']';
            if !complete {
                // no well-formed reference starts at this marker: step past
                // its first character and keep scanning
                let seg = text.substring_char(pos, i_abs + 1);
                out.append(seg);
                proof {
                    assert(text@.subrange(pos as int, i_abs + 1) =~= t.take(i_rel + 1));
                    assert(t.skip(i_rel + 1) =~= text@.skip(i_abs + 1));
                    if 1 <= j_rel && j_rel + 2 <= after.len() {
                        assert(after[j_rel + 1] == text@[close + 1]);
                    }
                }
                pos = i_abs + 1;
            } else {
                let seg = text.substring_char(pos, i_abs);
                out.append(seg);
                out.append("[[ATTACHMENT|");
                out.append(prefix.as_str());
                let path = text.substring_char(i_abs + 13, close);
                let norm = replace_all(path, "\\", "/");
                if windows {
                    let shown = replace_all(path, "/", "\\");
                    out.append(shown.as_str());
                } else {
                    out.append(path);
                }
                out.append("]]");
                let ghost atts_before = self.attachments@;
                self.attachments.push(norm);
                proof {
                    assert(text@.subrange(pos as int, i_abs as int) =~= t.take(i_rel));
                    assert(path@ =~= after.take(j_rel));
                    assert(after[j_rel + 1] == text@[close + 1]);
                    assert(after.skip(j_rel + 2) =~= text@.skip(close + 2));
                    assert(views_of(self.attachments@.skip(base.len() as int)) =~= views_of(
                        atts_before.skip(base.len() as int),
                    ).push(spec_replace(after.take(j_rel), "\\"@, "/"@)));
                    assert(views_of(atts_before.skip(base.len() as int)).push(
                        spec_replace(after.take(j_rel), "\\"@, "/"@),
                    ) + spec_rewrite(text@.skip(close + 2), pfx, win).1 =~= views_of(
                        atts_before.skip(base.len() as int),
                    ) + (seq![spec_replace(after.take(j_rel), "\\"@, "/"@)] + spec_rewrite(
                        text@.skip(close + 2),
                        pfx,
                        win,
                    ).1));
                }
                pos = close + 2;
            }
        }
    }
}

} // verus!
