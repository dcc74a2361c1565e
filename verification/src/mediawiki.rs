//! The pages of a MediaWiki dump, and the records that they become.
use vstd::prelude::*;
use vstd::string::*;

use crate::clock;
use crate::clock::time_stamp;
use crate::json;
use crate::json::{object_json, JsonModel, JsonValue};
use crate::schema;
use crate::schema::{DatasetSchema, FilterField, FilterType, FilterUi, SchemaModel};
use crate::text;
use crate::text::{concat_text, is_blank_text, same_text, to_chars, trim_text};
use crate::text_map;
use crate::text_map::TextMap;

verus! {

/// `regex::Error`: why a text is no pattern.
#[verifier::external_type_specification]
#[verifier::external_body]
pub struct ExRegexError(regex::Error);

/// Whether `regex::Regex::new` takes a text for a pattern.
pub uninterp spec fn is_pattern(pattern: Seq<char>) -> bool;

/// `regex::Regex::new`: whether it succeeds is a matter of the pattern alone.
#[verifier::external_body]
fn compile(pattern: &str) -> (r: Result<(), regex::Error>)
    ensures
        r is Ok <==> is_pattern(pattern@),
{
    regex::Regex::new(pattern).map(|_| ())
}

/// What `regex::Regex::replace_all` makes of a text: the matches of the pattern replaced.
pub uninterp spec fn replaced(
    pattern: Seq<char>,
    full: Seq<char>,
    replacement: Seq<char>,
) -> Seq<char>;

/// `regex::Regex::replace_all`, with a pattern that `regex::Regex::new` takes: its result is a
/// function of the pattern, the text and the replacement alone.
#[verifier::external_body]
fn replace_all(pattern: &str, full: &str, replacement: &str) -> (r: String)
    requires
        is_pattern(pattern@),
    ensures
        r@ == replaced(pattern@, full@, replacement@),
{
    regex::Regex::new(pattern).map(|re| re.replace_all(full, replacement).into_owned()).unwrap_or_default()
}

/// A pattern, and what its matches are replaced by.
#[derive(Debug, Clone, PartialEq, Eq)]
pub struct Replacement {
    pub pattern: String,
    pub by: String,
}

/// Patterns and what their matches are replaced by, without their representation.
pub open spec fn replacement_models(v: Seq<Replacement>) -> Seq<(Seq<char>, Seq<char>)> {
    Seq::new(v.len(), |i: int| (v[i].pattern@, v[i].by@))
}

/// A text after the replacements, made in their order.
pub open spec fn after_replacements(
    full: Seq<char>,
    steps: Seq<(Seq<char>, Seq<char>)>,
) -> Seq<char>
    decreases steps.len(),
{
    if steps.len() == 0 {
        full
    } else {
        replaced(
            steps.last().0,
            after_replacements(full, steps.drop_last()),
            steps.last().1,
        )
    }
}

/// The replacements that take the markup out of a wiki text: templates, which may stand within
/// each other, comments, references, links to files and categories, then other links, of which
/// the label stays, and at last what is left of the markup and the spaces.
pub open spec fn cleaning_steps() -> Seq<(Seq<char>, Seq<char>)> {
    seq![
        ("(?s)\\{\\{.*?\\}\\}"@, " "@),
        ("(?s)\\{\\{.*?\\}\\}"@, " "@),
        ("(?s)\\{\\{.*?\\}\\}"@, " "@),
        ("(?s)\\{\\{.*?\\}\\}"@, " "@),
        ("(?s)<!--.*?-->"@, " "@),
        ("(?is)<ref[^>]*>.*?</ref>|<ref[^>]*/>"@, " "@),
        ("\\[\\[(?:ファイル|画像|File|Image):[^\\]]+\\]\\]"@, " "@),
        ("\\[\\[(?:Category|カテゴリ):[^\\]]+\\]\\]"@, " "@),
        ("\\[(https?://[^\\s\\]]+)\\s+([^\\]]+)\\]"@, "$2"@),
        ("\\[\\[[^|\\]]+\\|([^\\]]+)\\]\\]"@, "$1"@),
        ("\\[\\[([^\\]]+)\\]\\]"@, "$1"@),
        ("'{2,}|={2,}|<[^>]+>|&nbsp;"@, " "@),
        ("[ \\t\\r\\n]+"@, " "@),
    ]
}

/// The text of a wiki page without its markup.
pub open spec fn cleaned(full: Seq<char>) -> Seq<char> {
    text::trimmed(after_replacements(full, cleaning_steps()))
}

fn replacement(pattern: &str, by: &str) -> (r: Replacement)
    ensures
        r.pattern@ == pattern@,
        r.by@ == by@,
{
    Replacement { pattern: pattern.to_string(), by: by.to_string() }
}

fn list_steps() -> (r: Vec<Replacement>)
    ensures
        replacement_models(r@) == cleaning_steps(),
{
    let mut out: Vec<Replacement> = Vec::new();
    out.push(replacement("(?s)\\{\\{.*?\\}\\}", " "));
    out.push(replacement("(?s)\\{\\{.*?\\}\\}", " "));
    out.push(replacement("(?s)\\{\\{.*?\\}\\}", " "));
    out.push(replacement("(?s)\\{\\{.*?\\}\\}", " "));
    out.push(replacement("(?s)<!--.*?-->", " "));
    out.push(replacement("(?is)<ref[^>]*>.*?</ref>|<ref[^>]*/>", " "));
    out.push(replacement("\\[\\[(?:ファイル|画像|File|Image):[^\\]]+\\]\\]", " "));
    out.push(replacement("\\[\\[(?:Category|カテゴリ):[^\\]]+\\]\\]", " "));
    out.push(replacement("\\[(https?://[^\\s\\]]+)\\s+([^\\]]+)\\]", "$2"));
    out.push(replacement("\\[\\[[^|\\]]+\\|([^\\]]+)\\]\\]", "$1"));
    out.push(replacement("\\[\\[([^\\]]+)\\]\\]", "$1"));
    out.push(replacement("'{2,}|={2,}|<[^>]+>|&nbsp;", " "));
    out.push(replacement("[ \\t\\r\\n]+", " "));
    assert(replacement_models(out@) =~= cleaning_steps());
    out
}

/// Why wiki texts cannot be cleaned.
#[derive(Debug, Clone, Copy, PartialEq, Eq)]
pub enum CleanerError {
    /// One of the patterns is refused.
    Pattern,
}

/// Takes the markup out of wiki texts.
pub struct WikiTextCleaner {
    steps: Vec<Replacement>,
}

impl WikiTextCleaner {
    #[verifier::type_invariant]
    spec fn inv(self) -> bool {
        &&& replacement_models(self.steps@) == cleaning_steps()
        &&& forall|i: int| 0 <= i < self.steps@.len() ==> is_pattern((#[trigger] self.steps@[i]).pattern@)
    }

    /// A cleaner. Fails only where one of the patterns is refused.
    pub fn new() -> (r: Result<WikiTextCleaner, CleanerError>)
        ensures
            r is Ok <==> forall|i: int|
                0 <= i < cleaning_steps().len() ==> is_pattern((#[trigger] cleaning_steps()[i]).0),
    {
        let steps = list_steps();
        let ghost all = replacement_models(steps@);
        let mut i: usize = 0;
        while i < steps.len()
            invariant
                i <= steps@.len(),
                all == replacement_models(steps@),
                all == cleaning_steps(),
                forall|k: int| 0 <= k < i ==> is_pattern((#[trigger] steps@[k]).pattern@),
            decreases steps@.len() - i,
        {
            if compile(steps[i].pattern.as_str()).is_err() {
                assert(!is_pattern(all[i as int].0));
                return Err(CleanerError::Pattern);
            }
            i = i + 1;
        }
        proof {
            assert forall|k: int| 0 <= k < all.len() implies is_pattern((#[trigger] all[k]).0) by {
                assert(is_pattern(steps@[k].pattern@));
            }
        }
        Ok(WikiTextCleaner { steps })
    }

    /// The text of a wiki page without its markup.
    pub fn clean(&self, input: &str) -> (r: String)
        ensures
            r@ == cleaned(input@),
    {
        proof {
            use_type_invariant(self);
        }
        let ghost all = cleaning_steps();
        let mut out = input.to_string();
        let mut i: usize = 0;
        assert(all.take(0) =~= Seq::empty());
        while i < self.steps.len()
            invariant
                i <= self.steps@.len(),
                all == cleaning_steps(),
                replacement_models(self.steps@) == all,
                forall|k: int|
                    0 <= k < self.steps@.len() ==> is_pattern((#[trigger] self.steps@[k]).pattern@),
                out@ == after_replacements(input@, all.take(i as int)),
            decreases self.steps@.len() - i,
        {
            let step = &self.steps[i];
            proof {
                assert(all[i as int] == (step.pattern@, step.by@));
                assert(all.take(i + 1).drop_last() =~= all.take(i as int));
                assert(all.take(i + 1).last() == all[i as int]);
            }
            out = replace_all(step.pattern.as_str(), out.as_str(), step.by.as_str());
            i = i + 1;
        }
        assert(all.take(i as int) =~= all);
        trim_text(out.as_str())
    }
}

/// A cleaned text has no spaces at its ends.
pub proof fn law_cleaned_is_trimmed(full: Seq<char>)
    ensures
        text::trimmed(cleaned(full)) == cleaned(full),
{
    text::lemma_trimmed_idempotent(after_replacements(full, cleaning_steps()));
}

/// What was read of a page so far.
#[derive(Debug, Clone, PartialEq, Eq)]
pub struct Page {
    pub title: String,
    pub id: String,
    pub ns: String,
    pub text: String,
    pub redirect: bool,
}

/// What was read of a page, without its representation.
pub struct PageModel {
    pub title: Seq<char>,
    pub id: Seq<char>,
    pub ns: Seq<char>,
    pub text: Seq<char>,
    pub redirect: bool,
}

impl View for Page {
    type V = PageModel;

    open spec fn view(&self) -> PageModel {
        PageModel {
            title: self.title@,
            id: self.id@,
            ns: self.ns@,
            text: self.text@,
            redirect: self.redirect,
        }
    }
}

/// A page of which nothing was read.
pub open spec fn empty_page() -> PageModel {
    PageModel {
        title: Seq::empty(),
        id: Seq::empty(),
        ns: Seq::empty(),
        text: Seq::empty(),
        redirect: false,
    }
}

impl Default for Page {
    fn default() -> (r: Self)
        ensures
            r@ == empty_page(),
    {
        Page {
            title: String::new(),
            id: String::new(),
            ns: String::new(),
            text: String::new(),
            redirect: false,
        }
    }
}

/// Which part of a page is being read.
#[derive(Debug, Clone, Copy, PartialEq, Eq, Structural)]
pub enum Field {
    Nothing,
    Title,
    Id,
    Ns,
    Text,
}

/// What comes next in a dump.
#[derive(Debug, Clone, PartialEq, Eq)]
pub enum DumpEvent {
    /// An element with the given name starts.
    Start(String),
    /// A text.
    Text(String),
    /// A text that is marked as character data.
    CData(String),
    /// An element with the given name ends.
    End(String),
    /// Anything else.
    Other,
}

/// What comes next in a dump, without its representation.
pub enum EventModel {
    Start(Seq<char>),
    Text(Seq<char>),
    CData(Seq<char>),
    End(Seq<char>),
    Other,
}

impl View for DumpEvent {
    type V = EventModel;

    open spec fn view(&self) -> EventModel {
        match self {
            DumpEvent::Start(s) => EventModel::Start(s@),
            DumpEvent::Text(s) => EventModel::Text(s@),
            DumpEvent::CData(s) => EventModel::CData(s@),
            DumpEvent::End(s) => EventModel::End(s@),
            DumpEvent::Other => EventModel::Other,
        }
    }
}

/// Where in a dump the reader is.
#[derive(Debug, Clone, PartialEq, Eq)]
pub struct DumpReader {
    pub page: Page,
    pub in_page: bool,
    pub in_revision: bool,
    pub field: Field,
}

/// Where in a dump the reader is, without its representation.
pub struct ReaderModel {
    pub page: PageModel,
    pub in_page: bool,
    pub in_revision: bool,
    pub field: Field,
}

impl View for DumpReader {
    type V = ReaderModel;

    open spec fn view(&self) -> ReaderModel {
        ReaderModel {
            page: self.page@,
            in_page: self.in_page,
            in_revision: self.in_revision,
            field: self.field,
        }
    }
}

impl PageModel {
    /// The page with a text added to the part that is being read.
    pub open spec fn with_text(self, field: Field, s: Seq<char>) -> PageModel {
        match field {
            Field::Title => PageModel { title: self.title + s, ..self },
            Field::Id => PageModel { id: self.id + s, ..self },
            Field::Ns => PageModel { ns: self.ns + s, ..self },
            Field::Text => PageModel { text: self.text + s, ..self },
            Field::Nothing => self,
        }
    }
}

impl ReaderModel {
    /// Where the reader is once an element has started. Of a page the first id counts that is
    /// not one of a revision.
    pub open spec fn started(self, name: Seq<char>) -> ReaderModel {
        if name == "page"@ {
            ReaderModel { in_page: true, page: empty_page(), ..self }
        } else if !self.in_page {
            self
        } else if name == "revision"@ {
            ReaderModel { in_revision: true, ..self }
        } else if name == "title"@ {
            ReaderModel { field: Field::Title, ..self }
        } else if name == "ns"@ {
            ReaderModel { field: Field::Ns, ..self }
        } else if name == "id"@ {
            if !self.in_revision && self.page.id.len() == 0 {
                ReaderModel { field: Field::Id, ..self }
            } else {
                self
            }
        } else if name == "text"@ {
            if self.in_revision {
                ReaderModel { field: Field::Text, ..self }
            } else {
                self
            }
        } else if name == "redirect"@ {
            ReaderModel { page: PageModel { redirect: true, ..self.page }, ..self }
        } else {
            self
        }
    }

    /// Where the reader is once an element has ended.
    pub open spec fn ended(self, name: Seq<char>) -> ReaderModel {
        if name == "revision"@ {
            ReaderModel { in_revision: false, ..self }
        } else if name == "title"@ || name == "id"@ || name == "ns"@ || name == "text"@ {
            ReaderModel { field: Field::Nothing, ..self }
        } else if name == "page"@ {
            ReaderModel { in_page: false, ..self }
        } else {
            self
        }
    }

    /// Where the reader is after what comes next.
    pub open spec fn read(self, event: EventModel) -> ReaderModel {
        match event {
            EventModel::Start(name) => self.started(name),
            EventModel::Text(s) => ReaderModel {
                page: self.page.with_text(self.field, s),
                ..self
            },
            EventModel::CData(s) => if self.field == Field::Text {
                ReaderModel { page: self.page.with_text(self.field, s), ..self }
            } else {
                self
            },
            EventModel::End(name) => self.ended(name),
            EventModel::Other => self,
        }
    }
}

impl DumpReader {
    /// A reader at the start of a dump.
    pub fn new() -> (r: DumpReader)
        ensures
            r@ == (ReaderModel {
                page: empty_page(),
                in_page: false,
                in_revision: false,
                field: Field::Nothing,
            }),
    {
        DumpReader {
            page: Page::default(),
            in_page: false,
            in_revision: false,
            field: Field::Nothing,
        }
    }

    fn start(&mut self, name: &str)
        ensures
            final(self)@ == old(self)@.started(name@),
    {
        if same_text(name, "page") {
            self.in_page = true;
            self.page = Page::default();
        } else if !self.in_page {
        } else if same_text(name, "revision") {
            self.in_revision = true;
        } else if same_text(name, "title") {
            self.field = Field::Title;
        } else if same_text(name, "ns") {
            self.field = Field::Ns;
        } else if same_text(name, "id") {
            if !self.in_revision && to_chars(self.page.id.as_str()).len() == 0 {
                self.field = Field::Id;
            }
        } else if same_text(name, "text") {
            if self.in_revision {
                self.field = Field::Text;
            }
        } else if same_text(name, "redirect") {
            self.page.redirect = true;
        }
    }

    fn add_text(&mut self, s: &str)
        ensures
            final(self)@ == (ReaderModel {
                page: old(self)@.page.with_text(old(self).field, s@),
                ..old(self)@
            }),
    {
        match self.field {
            Field::Title => {
                self.page.title = concat_text(self.page.title.as_str(), s);
            },
            Field::Id => {
                self.page.id = concat_text(self.page.id.as_str(), s);
            },
            Field::Ns => {
                self.page.ns = concat_text(self.page.ns.as_str(), s);
            },
            Field::Text => {
                self.page.text = concat_text(self.page.text.as_str(), s);
            },
            Field::Nothing => {},
        }
    }

    /// Reads what comes next. Whether a page has just ended is handed back.
    pub fn read(&mut self, event: &DumpEvent) -> (r: bool)
        ensures
            final(self)@ == old(self)@.read(event@),
            r == (event@ == EventModel::End("page"@)),
    {
        match event {
            DumpEvent::Start(name) => {
                self.start(name.as_str());
                false
            },
            DumpEvent::Text(s) => {
                self.add_text(s.as_str());
                false
            },
            DumpEvent::CData(s) => {
                if self.field == Field::Text {
                    self.add_text(s.as_str());
                }
                false
            },
            DumpEvent::End(name) => {
                proof {
                    lemma_all_names_differ();
                }
                if same_text(name.as_str(), "revision") {
                    self.in_revision = false;
                    false
                } else if same_text(name.as_str(), "title") || same_text(name.as_str(), "id")
                    || same_text(name.as_str(), "ns") || same_text(name.as_str(), "text") {
                    self.field = Field::Nothing;
                    false
                } else if same_text(name.as_str(), "page") {
                    self.in_page = false;
                    true
                } else {
                    false
                }
            },
            DumpEvent::Other => false,
        }
    }
}

/// Whether no more pages are wanted.
pub fn has_enough(count: usize, limit: Option<usize>) -> (r: bool)
    ensures
        r == (limit matches Some(n) && count >= n),
{
    match limit {
        Some(n) => count >= n,
        None => false,
    }
}

/// Where the reader is after all that comes next.
pub open spec fn read_all(state: ReaderModel, events: Seq<EventModel>) -> ReaderModel
    decreases events.len(),
{
    if events.len() == 0 {
        state
    } else {
        read_all(state, events.drop_last()).read(events.last())
    }
}

/// An element with nothing but a text in it.
pub open spec fn element(name: Seq<char>, s: Seq<char>) -> Seq<EventModel> {
    seq![EventModel::Start(name), EventModel::Text(s), EventModel::End(name)]
}

/// A page of a dump with one revision, up to its end.
pub open spec fn page_events(
    title: Seq<char>,
    ns: Seq<char>,
    id: Seq<char>,
    revision_id: Seq<char>,
    full: Seq<char>,
) -> Seq<EventModel> {
    seq![EventModel::Start("page"@)] + element("title"@, title) + element("ns"@, ns) + element(
        "id"@,
        id,
    ) + seq![EventModel::Start("revision"@)] + element("id"@, revision_id) + element(
        "text"@,
        full,
    ) + seq![EventModel::End("revision"@), EventModel::End("page"@)]
}

proof fn lemma_read_on(state: ReaderModel, a: Seq<EventModel>, b: Seq<EventModel>)
    ensures
        read_all(state, a + b) == read_all(read_all(state, a), b),
    decreases b.len(),
{
    if b.len() == 0 {
        assert(a + b =~= a);
    } else {
        assert((a + b).drop_last() =~= a + b.drop_last());
        assert((a + b).last() == b.last());
        lemma_read_on(state, a, b.drop_last());
    }
}

proof fn lemma_read_one(state: ReaderModel, event: EventModel)
    ensures
        read_all(state, seq![event]) == state.read(event),
{
    reveal_with_fuel(read_all, 2);
    assert(seq![event].drop_last() =~= Seq::empty());
}

proof fn lemma_read_element(state: ReaderModel, name: Seq<char>, s: Seq<char>)
    ensures
        read_all(state, element(name, s)) == state.read(EventModel::Start(name)).read(
            EventModel::Text(s),
        ).read(EventModel::End(name)),
{
    let events = element(name, s);
    reveal_with_fuel(read_all, 4);
    assert(events.drop_last() =~= seq![EventModel::Start(name), EventModel::Text(s)]);
    assert(events.drop_last().drop_last() =~= seq![EventModel::Start(name)]);
    assert(events.drop_last().drop_last().drop_last() =~= Seq::empty());
}

proof fn lemma_all_names_differ()
    ensures
        "page"@ != "revision"@,
        "page"@ != "title"@,
        "page"@ != "id"@,
        "page"@ != "ns"@,
        "page"@ != "text"@,
        "revision"@ != "title"@,
        "revision"@ != "id"@,
        "revision"@ != "ns"@,
        "revision"@ != "text"@,
        "title"@ != "id"@,
        "title"@ != "ns"@,
        "title"@ != "text"@,
        "id"@ != "ns"@,
        "id"@ != "text"@,
        "ns"@ != "text"@,
{
    reveal_strlit("page");
    reveal_strlit("revision");
    reveal_strlit("title");
    reveal_strlit("id");
    reveal_strlit("ns");
    reveal_strlit("text");
    assert("page"@.len() == 4 && "revision"@.len() == 8 && "title"@.len() == 5);
    assert("id"@.len() == 2 && "ns"@.len() == 2 && "text"@.len() == 4);
    assert("page"@[0] != "text"@[0]);
    assert("id"@[0] != "ns"@[0]);
}

/// Reading a page of a dump gives its title, its namespace, its own id and not that of its
/// revision, and its text, whatever was read before, where no other part of a page was being
/// read.
pub proof fn law_page_is_read(
    before: ReaderModel,
    title: Seq<char>,
    ns: Seq<char>,
    id: Seq<char>,
    revision_id: Seq<char>,
    full: Seq<char>,
)
    requires
        !before.in_page,
        !before.in_revision,
        before.field == Field::Nothing,
    ensures
        read_all(before, page_events(title, ns, id, revision_id, full)) == (ReaderModel {
            page: PageModel { title, id, ns, text: full, redirect: false },
            in_page: false,
            in_revision: false,
            field: Field::Nothing,
        }),
{
    lemma_all_names_differ();
    let e1 = seq![EventModel::Start("page"@)];
    let e2 = e1 + element("title"@, title);
    let e3 = e2 + element("ns"@, ns);
    let e4 = e3 + element("id"@, id);
    let e5 = e4 + seq![EventModel::Start("revision"@)];
    let e6 = e5 + element("id"@, revision_id);
    let e7 = e6 + element("text"@, full);
    let end = seq![EventModel::End("revision"@), EventModel::End("page"@)];
    let e8 = e7 + end;
    assert(e8 == page_events(title, ns, id, revision_id, full));

    let s1 = before.read(EventModel::Start("page"@));
    lemma_read_one(before, EventModel::Start("page"@));
    assert(read_all(before, e1) == s1);

    lemma_read_on(before, e1, element("title"@, title));
    lemma_read_element(s1, "title"@, title);
    let s2 = read_all(before, e2);
    assert(s2.page.title =~= title);
    assert(s2 == (ReaderModel { page: PageModel { title, ..empty_page() }, ..s1 }));

    lemma_read_on(before, e2, element("ns"@, ns));
    lemma_read_element(s2, "ns"@, ns);
    let s3 = read_all(before, e3);
    assert(s3.page.ns =~= ns);
    assert(s3 == (ReaderModel { page: PageModel { ns, ..s2.page }, ..s2 }));

    lemma_read_on(before, e3, element("id"@, id));
    lemma_read_element(s3, "id"@, id);
    let s4 = read_all(before, e4);
    assert(s4.page.id =~= id);
    assert(s4 == (ReaderModel { page: PageModel { id, ..s3.page }, ..s3 }));

    lemma_read_on(before, e4, seq![EventModel::Start("revision"@)]);
    lemma_read_one(s4, EventModel::Start("revision"@));
    let s5 = read_all(before, e5);
    assert(s5 == (ReaderModel { in_revision: true, ..s4 }));

    lemma_read_on(before, e5, element("id"@, revision_id));
    lemma_read_element(s5, "id"@, revision_id);
    let s6 = read_all(before, e6);
    assert(s6 == s5);

    lemma_read_on(before, e6, element("text"@, full));
    lemma_read_element(s6, "text"@, full);
    let s7 = read_all(before, e7);
    assert(s7.page.text =~= full);
    assert(s7 == (ReaderModel { page: PageModel { text: full, ..s6.page }, ..s6 }));

    lemma_read_on(before, e7, end);
    reveal_with_fuel(read_all, 3);
    assert(end.drop_last() =~= seq![EventModel::End("revision"@)]);
    assert(end.drop_last().drop_last() =~= Seq::empty());
}

/// Which pages become records, and under which dataset.
#[derive(Debug, Clone, PartialEq, Eq)]
pub struct ConvertOptions {
    pub dataset: String,
    pub min_chars: usize,
}

/// A page as a record.
#[derive(Debug, Clone, PartialEq, Eq)]
pub struct WikiRecord {
    pub page_id: String,
    pub title: String,
    pub text: String,
    pub source: String,
    pub url: String,
    pub converted_at: String,
}

/// A page as a record, without its representation.
pub struct WikiModel {
    pub page_id: Seq<char>,
    pub title: Seq<char>,
    pub text: Seq<char>,
    pub source: Seq<char>,
    pub url: Seq<char>,
    pub converted_at: Seq<char>,
}

impl View for WikiRecord {
    type V = WikiModel;

    open spec fn view(&self) -> WikiModel {
        WikiModel {
            page_id: self.page_id@,
            title: self.title@,
            text: self.text@,
            source: self.source@,
            url: self.url@,
            converted_at: self.converted_at@,
        }
    }
}

/// A text with an underscore for each space.
pub open spec fn underscored(s: Seq<char>) -> Seq<char> {
    Seq::new(
        s.len(),
        |i: int|
            if s[i] == ' ' {
                '_'
            } else {
                s[i]
            },
    )
}

/// The address of a page.
pub open spec fn page_url(title: Seq<char>) -> Seq<char> {
    "https://ja.wikibooks.org/wiki/"@ + underscored(title)
}

/// Whether a page is an article with a name.
pub open spec fn is_article(page: PageModel) -> bool {
    !page.redirect && page.ns == "0"@ && page.id.len() > 0 && !text::is_blank(page.title)
}

/// The record that a page becomes, given its cleaned text; none where the page is no article or
/// its text is too short.
pub open spec fn page_record(
    page: PageModel,
    text: Seq<char>,
    dataset: Seq<char>,
    min_chars: int,
    converted_at: Seq<char>,
) -> Option<WikiModel> {
    if !is_article(page) || text.len() < min_chars {
        None
    } else {
        Some(
            WikiModel {
                page_id: page.id,
                title: page.title,
                text,
                source: dataset,
                url: page_url(page.title),
                converted_at,
            },
        )
    }
}

fn underscore(s: &str) -> (r: String)
    ensures
        r@ == underscored(s@),
{
    let chars = to_chars(s);
    let mut out = String::new();
    let mut i: usize = 0;
    assert(out@ =~= underscored(s@).take(0));
    while i < chars.len()
        invariant
            i <= chars@.len(),
            chars@ == s@,
            out@ == underscored(s@).take(i as int),
        decreases chars@.len() - i,
    {
        out.push(
            if chars[i] == ' ' {
                '_'
            } else {
                chars[i]
            },
        );
        assert(out@ =~= underscored(s@).take(i + 1));
        i = i + 1;
    }
    assert(underscored(s@).take(i as int) =~= underscored(s@));
    out
}

/// The record that a page becomes, given its cleaned text and the time; none where the page is
/// no article or its text is too short.
pub fn page_to_record_with(
    options: &ConvertOptions,
    page: &Page,
    text: String,
    converted_at: String,
) -> (r: Option<WikiRecord>)
    ensures
        match page_record(
            page@,
            text@,
            options.dataset@,
            options.min_chars as int,
            converted_at@,
        ) {
            Some(m) => r is Some && r->0@ == m,
            None => r is None,
        },
{
    if page.redirect || !same_text(page.ns.as_str(), "0") || to_chars(page.id.as_str()).len() == 0
        || is_blank_text(page.title.as_str()) {
        return None;
    }
    if to_chars(text.as_str()).len() < options.min_chars {
        return None;
    }
    Some(
        WikiRecord {
            page_id: page.id.clone(),
            title: page.title.clone(),
            text,
            source: options.dataset.clone(),
            url: concat_text(
                "https://ja.wikibooks.org/wiki/",
                underscore(page.title.as_str()).as_str(),
            ),
            converted_at,
        },
    )
}

/// The record that a page becomes; none where the page is no article or its cleaned text is too
/// short.
pub fn page_to_record(options: &ConvertOptions, cleaner: &WikiTextCleaner, page: &Page) -> (r:
    Option<WikiRecord>)
    ensures
        match r {
            Some(record) => page_record(
                page@,
                cleaned(page.text@),
                options.dataset@,
                options.min_chars as int,
                record.converted_at@,
            ) == Some(record@) && clock::is_time_stamp(record.converted_at@),
            None => !is_article(page@) || cleaned(page.text@).len() < options.min_chars,
        },
{
    let text = cleaner.clean(page.text.as_str());
    page_to_record_with(options, page, text, time_stamp())
}

/// The fields of a record, in the order of their names.
pub open spec fn record_fields(record: WikiModel) -> Seq<(Seq<char>, JsonModel)> {
    seq![
        ("converted_at"@, JsonModel::Text(record.converted_at)),
        ("page_id"@, JsonModel::Text(record.page_id)),
        ("source"@, JsonModel::Text(record.source)),
        ("text"@, JsonModel::Text(record.text)),
        ("title"@, JsonModel::Text(record.title)),
        ("url"@, JsonModel::Text(record.url)),
    ]
}

/// The line of a record: a JSON object of its fields, which is read as it was written.
pub fn record_line(record: &WikiRecord) -> (r: String)
    ensures
        r@ == json::json_object_text(record_fields(record@)),
        json::json_document(vstd::utf8::encode_utf8(r@)) == Some(Some(record_fields(record@))),
{
    let mut fields: Vec<(String, JsonValue)> = Vec::new();
    fields.push(("converted_at".to_string(), JsonValue::Text(record.converted_at.clone())));
    fields.push(("page_id".to_string(), JsonValue::Text(record.page_id.clone())));
    fields.push(("source".to_string(), JsonValue::Text(record.source.clone())));
    fields.push(("text".to_string(), JsonValue::Text(record.text.clone())));
    fields.push(("title".to_string(), JsonValue::Text(record.title.clone())));
    fields.push(("url".to_string(), JsonValue::Text(record.url.clone())));
    proof {
        let written = record_fields(record@);
        assert(json::field_models(fields@) =~= written);
        lemma_record_fields(record@);
        text_map::lemma_put_all_ordered(written);
        assert(json::is_plain(written)) by {
            reveal_strlit("$serde_json::private::RawValue");
            reveal_strlit("converted_at");
            assert("converted_at"@.len() != json::raw_name().len());
        }
    }
    object_json(&fields)
}

fn names(a: &str, b: &str) -> (r: Vec<String>)
    ensures
        text::texts(r@) == seq![a@, b@],
{
    let mut out: Vec<String> = Vec::new();
    out.push(a.to_string());
    out.push(b.to_string());
    assert(text::texts(out@) =~= seq![a@, b@]);
    out
}

/// The schema of the records that pages become.
pub open spec fn wiki_schema(dataset: Seq<char>) -> SchemaModel {
    SchemaModel {
        dataset_id: dataset,
        primary_key: "page_id"@,
        text_fields: seq!["title"@, "text"@],
        display_fields: seq!["title"@, "url"@, "source"@, "converted_at"@],
        full_text_fields: seq!["title"@, "text"@],
        source_uri_field: Some("url"@),
        source_label_field: Some("source"@),
        filter_fields: seq![
            (
                "source"@,
                schema::FilterModel {
                    field_type: FilterType::Keyword,
                    label: Some("Source"@),
                    ui: FilterUi::Select,
                },
            ),
        ],
    }
}

/// The schema of the records that pages become.
pub fn write_schema(dataset: &str) -> (r: DatasetSchema)
    ensures
        r.wf(),
        r@ == wiki_schema(dataset@),
{
    let mut display_fields = names("title", "url");
    let ghost first = text::texts(display_fields@);
    display_fields.push("source".to_string());
    display_fields.push("converted_at".to_string());
    assert(text::texts(display_fields@) =~= first.push("source"@).push("converted_at"@));
    let mut list: Vec<(String, FilterField)> = Vec::new();
    list.push(
        (
            "source".to_string(),
            FilterField {
                field_type: FilterType::Keyword,
                label: Some("Source".to_string()),
                ui: FilterUi::Select,
            },
        ),
    );
    let filter_fields = TextMap::from_ordered(list);
    let r = DatasetSchema {
        dataset_id: dataset.to_string(),
        primary_key: "page_id".to_string(),
        text_fields: names("title", "text"),
        display_fields,
        full_text_fields: names("title", "text"),
        source_uri_field: Some("url".to_string()),
        source_label_field: Some("source".to_string()),
        filter_fields,
    };
    proof {
        let want = wiki_schema(dataset@);
        assert(r@.display_fields =~= want.display_fields);
        assert(r@.filter_fields =~= want.filter_fields);
    }
    r
}

proof fn lemma_record_fields(record: WikiModel)
    ensures
        ({
            let fields = record_fields(record);
            &&& text_map::is_ordered(fields)
            &&& text_map::value_of(fields, "converted_at"@) == Some(
                JsonModel::Text(record.converted_at),
            )
            &&& text_map::value_of(fields, "page_id"@) == Some(JsonModel::Text(record.page_id))
            &&& text_map::value_of(fields, "source"@) == Some(JsonModel::Text(record.source))
            &&& text_map::value_of(fields, "text"@) == Some(JsonModel::Text(record.text))
            &&& text_map::value_of(fields, "title"@) == Some(JsonModel::Text(record.title))
            &&& text_map::value_of(fields, "url"@) == Some(JsonModel::Text(record.url))
        }),
{
    let fields = record_fields(record);
    reveal_strlit("converted_at");
    reveal_strlit("page_id");
    reveal_strlit("source");
    reveal_strlit("text");
    reveal_strlit("title");
    reveal_strlit("url");
    assert("text"@.drop_first()[0] == 'e' && "title"@.drop_first()[0] == 'i');
    reveal_with_fuel(text::text_lt, 3);
    assert(text_map::is_ordered(fields));
    text_map::lemma_value_of(fields, 0);
    text_map::lemma_value_of(fields, 1);
    text_map::lemma_value_of(fields, 2);
    text_map::lemma_value_of(fields, 3);
    text_map::lemma_value_of(fields, 4);
    text_map::lemma_value_of(fields, 5);
}

/// The schema takes every record that a page becomes, under the id of the page.
pub proof fn law_schema_takes_pages(
    page: PageModel,
    text: Seq<char>,
    dataset: Seq<char>,
    min_chars: int,
    converted_at: Seq<char>,
)
    requires
        !text::is_blank(dataset),
        page_record(page, text, dataset, min_chars, converted_at) is Some,
    ensures
        ({
            let record = page_record(page, text, dataset, min_chars, converted_at)->0;
            let prepared = schema::prepared(
                wiki_schema(dataset),
                Some(record_fields(record)),
                Set::empty(),
            );
            &&& wiki_schema(dataset).validate() is Ok
            &&& prepared is Ok
            &&& prepared->Ok_0.record_id == page.id
        }),
{
    let record = page_record(page, text, dataset, min_chars, converted_at)->0;
    let fields = record_fields(record);
    let wiki = wiki_schema(dataset);
    let doc = Some(fields);
    lemma_record_fields(record);
    reveal_strlit("page_id");
    assert(!text::is_space('p'));
    assert("page_id"@[0] == 'p');
    assert(!text::is_blank("page_id"@));
    assert forall|i: int| 0 <= i < fields.len() implies !(#[trigger] fields[i]).1.is_nested() by {}
    assert(schema::record_key(wiki, fields) == Some(page.id));
    let parts = schema::text_parts(wiki.text_fields, fields);
    assert(wiki.text_fields.drop_last() =~= seq!["title"@]);
    assert(wiki.text_fields.drop_last().drop_last() =~= Seq::empty());
    reveal_with_fuel(schema::text_parts, 3);
    assert(parts[0] == record.title);
    text::lemma_joined_not_blank(parts, "\n"@, 0);
    let required = schema::required_fields(wiki);
    assert forall|i: int| 0 <= i < required.len() implies text_map::value_of(
        fields,
        #[trigger] required[i],
    ) is Some by {}
    assert(schema::is_acceptable(wiki, doc));
    schema::lemma_prepared(wiki, doc, Set::empty());
}

/// Whether a dump is packed, by the extension of its file name.
pub fn is_bzip2(extension: Option<&str>) -> (r: bool)
    ensures
        r == (extension matches Some(e) && e@.len() == 3 && (e@[0] == 'b' || e@[0] == 'B') && (e@[1]
            == 'z' || e@[1] == 'Z') && e@[2] == '2'),
{
    match extension {
        None => false,
        Some(e) => {
            let chars = to_chars(e);
            chars.len() == 3 && (chars[0] == 'b' || chars[0] == 'B') && (chars[1] == 'z' || chars[1]
                == 'Z') && chars[2] == '2'
        },
    }
}

/// A text that comes in two pieces is read as one; a text that is marked as such counts only within
/// the text of a page; and what is neither an element nor a text changes nothing.
pub proof fn law_pieces_of_text(state: ReaderModel, a: Seq<char>, b: Seq<char>)
    ensures
        state.read(EventModel::Text(a)).read(EventModel::Text(b)) == state.read(
            EventModel::Text(a + b),
        ),
        state.field == Field::Text ==> state.read(EventModel::CData(a)) == state.read(
            EventModel::Text(a),
        ) && state.read(EventModel::CData(a)).page.text == state.page.text + a,
        state.field != Field::Text ==> state.read(EventModel::CData(a)) == state,
        state.field == Field::Nothing ==> state.read(EventModel::Text(a)) == state,
        state.read(EventModel::Other) == state,
{
    assert(state.page.title + a + b =~= state.page.title + (a + b));
    assert(state.page.id + a + b =~= state.page.id + (a + b));
    assert(state.page.ns + a + b =~= state.page.ns + (a + b));
    assert(state.page.text + a + b =~= state.page.text + (a + b));
}

/// A redirect marks its page, and changes nothing else of it. The first id of a page stays, and the
/// text that counts is that of a revision.
pub proof fn law_elements_of_a_page(state: ReaderModel, s: Seq<char>)
    requires
        state.in_page,
        state.field == Field::Nothing,
    ensures
        read_all(state, element("redirect"@, s)) == (ReaderModel {
            page: PageModel { redirect: true, ..state.page },
            ..state
        }),
        state.page.id.len() > 0 || state.in_revision ==> read_all(state, element("id"@, s)) == state,
        !state.in_revision ==> read_all(state, element("text"@, s)) == state,
        state.in_revision ==> read_all(state, element("text"@, s)) == (ReaderModel {
            page: PageModel { text: state.page.text + s, ..state.page },
            ..state
        }),
{
    lemma_all_names_differ();
    reveal_strlit("redirect");
    reveal_strlit("page");
    reveal_strlit("revision");
    reveal_strlit("title");
    reveal_strlit("id");
    reveal_strlit("ns");
    reveal_strlit("text");
    assert("redirect"@.len() == 8 && "redirect"@[2] != "revision"@[2]);
    lemma_read_element(state, "redirect"@, s);
    lemma_read_element(state, "id"@, s);
    lemma_read_element(state, "text"@, s);
}

/// What stands outside of pages is not read.
pub proof fn law_outside_of_pages(state: ReaderModel, name: Seq<char>)
    requires
        !state.in_page,
        name != "page"@,
    ensures
        state.read(EventModel::Start(name)) == state,
        state.read(EventModel::Start("page"@)).in_page,
        state.read(EventModel::Start("page"@)).page == empty_page(),
{
}

/// A page becomes a record exactly where it is an article, not a redirect, of the main namespace,
/// with an id and a title, and has text enough. The record has its id, its title and its text, and
/// an address that ends in the title with an underscore for each space.
pub proof fn law_page_record(
    page: PageModel,
    text: Seq<char>,
    dataset: Seq<char>,
    min_chars: int,
    converted_at: Seq<char>,
)
    ensures
        ({
            let made = page_record(page, text, dataset, min_chars, converted_at);
            &&& made is Some <==> !page.redirect && page.ns == "0"@ && page.id.len() > 0
                && !text::is_blank(page.title) && text.len() >= min_chars
            &&& made matches Some(record) ==> {
                let head = "https://ja.wikibooks.org/wiki/"@;
                &&& record.page_id == page.id
                &&& record.title == page.title
                &&& record.text == text
                &&& record.source == dataset
                &&& record.converted_at == converted_at
                &&& record.url.len() == head.len() + page.title.len()
                &&& record.url.take(head.len() as int) == head
                &&& forall|i: int|
                    0 <= i < page.title.len() ==> record.url[head.len() + i] == if (
                    #[trigger] page.title[i]) == ' ' {
                        '_'
                    } else {
                        page.title[i]
                    }
            }
        }),
{
    let head = "https://ja.wikibooks.org/wiki/"@;
    assert(page_url(page.title).take(head.len() as int) =~= head);
}

/// A record that a page became is written under the names of its fields, and a schema for pages
/// makes of it a record that is searched by its title and its text, and filtered by its source.
pub proof fn law_pages_are_searched(record: WikiModel, dataset: Seq<char>)
    requires
        !text::is_blank(record.title),
        !text::is_blank(record.text),
    ensures
        ({
            let fields = record_fields(record);
            let prepared = schema::prepared(wiki_schema(dataset), Some(fields), Set::empty());
            &&& text_map::value_of(fields, "page_id"@) == Some(JsonModel::Text(record.page_id))
            &&& text_map::value_of(fields, "title"@) == Some(JsonModel::Text(record.title))
            &&& text_map::value_of(fields, "text"@) == Some(JsonModel::Text(record.text))
            &&& text_map::value_of(fields, "source"@) == Some(JsonModel::Text(record.source))
            &&& text_map::value_of(fields, "url"@) == Some(JsonModel::Text(record.url))
            &&& text_map::value_of(fields, "converted_at"@) == Some(
                JsonModel::Text(record.converted_at),
            )
            &&& prepared is Ok
            &&& prepared->Ok_0.record_id == record.page_id
            &&& prepared->Ok_0.searchable_text == record.title + seq!['\n'] + record.text
            &&& prepared->Ok_0.filters == seq![("source"@, JsonModel::Text(record.source))]
        }),
{
    let fields = record_fields(record);
    let wiki = wiki_schema(dataset);
    lemma_record_fields(record);
    assert forall|i: int| 0 <= i < fields.len() implies !(#[trigger] fields[i]).1.is_nested() by {}
    let names = wiki.text_fields;
    let parts = schema::text_parts(names, fields);
    assert(names.drop_last() =~= seq!["title"@]);
    assert(names.drop_last().drop_last() =~= Seq::empty());
    reveal_with_fuel(schema::text_parts, 3);
    assert(parts =~= seq![record.title, record.text]);
    text::lemma_joined_not_blank(parts, "\n"@, 0);
    reveal_strlit("\n");
    assert("\n"@ =~= seq!['\n']);
    text::law_joined(seq![record.title], seq![record.text], "\n"@);
    text::law_joined(seq![record.text], Seq::empty(), "\n"@);
    assert(seq![record.title] + seq![record.text] =~= parts);
    let required = schema::required_fields(wiki);
    assert forall|i: int| 0 <= i < required.len() implies text_map::value_of(
        fields,
        #[trigger] required[i],
    ) is Some by {}
    assert(schema::is_acceptable(wiki, Some(fields)));
    schema::lemma_prepared(wiki, Some(fields), Set::empty());
    let made = schema::prepared(wiki, Some(fields), Set::empty())->Ok_0;
    assert(made.filters =~= seq![("source"@, JsonModel::Text(record.source))]);
}

} // verus!
