//! Where the graph files come from and what the user has to do to get them:
//! exact file names, direct links, both sizes, and which files must be unpacked.

use vstd::prelude::*;
use crate::text::{chars_of, string_of, str_eq, find_seq, occurs_at};
use crate::number::{append_str, append_chars, human_bytes, spec_human_bytes};
use crate::path::{file_name_chars, spec_file_name};

verus! {

/// The release used to size and name things when nothing is configured yet.
pub const DEFAULT_CRAWL: &'static str = "cc-main-2026-apr-may-jun";

/// Listing of every published graph, for when a newer crawl is out.
pub const CRAWL_LIST_URL: &'static str = "https://commoncrawl.org/web-graphs";

/// Which of the three files this is.
#[derive(Debug, Clone, Copy, PartialEq, Eq, Structural)]
pub enum GraphFile {
    Vertices,
    Edges,
    Ranks,
}

pub open spec fn file_key(f: GraphFile) -> Seq<char> {
    match f {
        GraphFile::Vertices => "vertices"@,
        GraphFile::Edges => "edges"@,
        GraphFile::Ranks => "ranks"@,
    }
}

pub open spec fn spec_file_name_of(f: GraphFile, crawl: Seq<char>) -> Seq<char> {
    crawl + "-domain-"@ + file_key(f) + ".txt"@
}

pub open spec fn spec_archive_name(f: GraphFile, crawl: Seq<char>) -> Seq<char> {
    spec_file_name_of(f, crawl) + ".gz"@
}

pub open spec fn spec_download_url(f: GraphFile, crawl: Seq<char>) -> Seq<char> {
    "https://data.commoncrawl.org/projects/hyperlinkgraph"@ + "/"@ + crawl + "/domain/"@ + spec_archive_name(f, crawl)
}

pub open spec fn spec_download_bytes(f: GraphFile) -> u64 {
    match f {
        GraphFile::Vertices => 878706688,
        GraphFile::Edges => 14260633600,
        GraphFile::Ranks => 2361393152,
    }
}

pub open spec fn spec_unpacked_bytes(f: GraphFile) -> u64 {
    match f {
        GraphFile::Vertices => 3430160421,
        GraphFile::Edges => 67065528122,
        GraphFile::Ranks => 8331642513,
    }
}

/// Queries seek into vertices and edges after indexing; ranks is streamed once.
pub open spec fn spec_must_be_unpacked(f: GraphFile) -> bool {
    f != GraphFile::Ranks
}

pub open spec fn spec_resident_bytes(f: GraphFile) -> u64 {
    if spec_must_be_unpacked(f) { spec_unpacked_bytes(f) } else { spec_download_bytes(f) }
}

impl GraphFile {
    /// The three files, in the order they are listed everywhere.
    pub fn all() -> (r: [GraphFile; 3])
        ensures
            r@ == seq![GraphFile::Vertices, GraphFile::Edges, GraphFile::Ranks],
    {
        let r = [GraphFile::Vertices, GraphFile::Edges, GraphFile::Ranks];
        assert(r@ =~= seq![GraphFile::Vertices, GraphFile::Edges, GraphFile::Ranks]);
        r
    }

    pub fn key(self) -> (r: &'static str)
        ensures
            r@ == file_key(self),
    {
        match self {
            GraphFile::Vertices => "vertices",
            GraphFile::Edges => "edges",
            GraphFile::Ranks => "ranks",
        }
    }

    /// The file whose key is exactly `key`.
    pub fn parse(key: &str) -> (r: Option<GraphFile>)
        ensures
            match r {
                Some(f) => file_key(f) == key@,
                None => forall|f: GraphFile| file_key(f) != key@,
            },
    {
        if str_eq(key, "vertices") {
            Some(GraphFile::Vertices)
        } else if str_eq(key, "edges") {
            Some(GraphFile::Edges)
        } else if str_eq(key, "ranks") {
            Some(GraphFile::Ranks)
        } else {
            proof {
                assert forall|f: GraphFile| file_key(f) != key@ by {
                    match f {
                        GraphFile::Vertices => {},
                        GraphFile::Edges => {},
                        GraphFile::Ranks => {},
                    }
                }
            }
            None
        }
    }

    pub fn purpose(self) -> (r: &'static str)
        ensures
            r@ == self.purpose_text(),
    {
        match self {
            GraphFile::Vertices => "Список доменів: номер і назва кожного з ~121 млн доменів.",
            GraphFile::Edges => "Усі посилання між доменами. Найбільший файл.",
            GraphFile::Ranks => "PageRank і Harmonic для кожного домену.",
        }
    }

    /// Whether queries need random access into this file after indexing.
    pub fn must_be_unpacked(self) -> (r: bool)
        ensures
            r == spec_must_be_unpacked(self),
    {
        match self {
            GraphFile::Vertices | GraphFile::Edges => true,
            GraphFile::Ranks => false,
        }
    }

    /// Approximate download size for the reference crawl, in bytes.
    pub fn download_bytes(self) -> (r: u64)
        ensures
            r == spec_download_bytes(self),
    {
        match self {
            GraphFile::Vertices => 838 * 1024 * 1024,
            GraphFile::Edges => 13_600 * 1024 * 1024,
            GraphFile::Ranks => 2_252 * 1024 * 1024,
        }
    }

    /// Approximate size once unpacked, in bytes.
    pub fn unpacked_bytes(self) -> (r: u64)
        ensures
            r == spec_unpacked_bytes(self),
    {
        match self {
            GraphFile::Vertices => 3_430_160_421,
            GraphFile::Edges => 67_065_528_122,
            GraphFile::Ranks => 8_331_642_513,
        }
    }

    /// Disk actually needed for this file after setup: `ranks` may stay packed.
    pub fn resident_bytes(self) -> (r: u64)
        ensures
            r == spec_resident_bytes(self),
    {
        if self.must_be_unpacked() {
            self.unpacked_bytes()
        } else {
            self.download_bytes()
        }
    }

    pub fn file_name(self, crawl: &str) -> (r: String)
        ensures
            r@ == spec_file_name_of(self, crawl@),
    {
        let mut v = chars_of(crawl);
        append_str(&mut v, "-domain-");
        append_str(&mut v, self.key());
        append_str(&mut v, ".txt");
        string_of(&v)
    }

    pub fn archive_name(self, crawl: &str) -> (r: String)
        ensures
            r@ == spec_archive_name(self, crawl@),
    {
        let name = self.file_name(crawl);
        let mut v = chars_of(name.as_str());
        append_str(&mut v, ".gz");
        string_of(&v)
    }

    pub fn download_url(self, crawl: &str) -> (r: String)
        ensures
            r@ == spec_download_url(self, crawl@),
    {
        let mut v = chars_of("https://data.commoncrawl.org/projects/hyperlinkgraph");
        append_str(&mut v, "/");
        append_str(&mut v, crawl);
        append_str(&mut v, "/domain/");
        let archive = self.archive_name(crawl);
        append_str(&mut v, archive.as_str());
        string_of(&v)
    }
}

/// One row of the "how to get the data" table, ready for the UI.
pub struct DownloadHint {
    pub kind: String,
    pub purpose: String,
    pub file_name: String,
    pub archive_name: String,
    pub url: String,
    pub download_bytes: u64,
    pub unpacked_bytes: u64,
    pub must_be_unpacked: bool,
}

/// The three rows, plus the totals, for a given crawl.
pub struct SetupGuide {
    pub crawl: String,
    pub crawl_list_url: String,
    pub files: Vec<DownloadHint>,
    pub total_download_bytes: u64,
    pub total_resident_bytes: u64,
}

/// The row for `f` describes it for `crawl`.
pub open spec fn hint_describes(h: DownloadHint, f: GraphFile, crawl: Seq<char>) -> bool {
    &&& h.kind@ == file_key(f)
    &&& h.file_name@ == spec_file_name_of(f, crawl)
    &&& h.archive_name@ == spec_archive_name(f, crawl)
    &&& h.url@ == spec_download_url(f, crawl)
    &&& h.download_bytes == spec_download_bytes(f)
    &&& h.unpacked_bytes == spec_unpacked_bytes(f)
    &&& h.must_be_unpacked == spec_must_be_unpacked(f)
}

fn hint_for(f: GraphFile, crawl: &str) -> (h: DownloadHint)
    ensures
        hint_describes(h, f, crawl@),
        h.purpose@ == f.purpose_text(),
{
    DownloadHint {
        kind: string_of(&chars_of(f.key())),
        purpose: string_of(&chars_of(f.purpose())),
        file_name: f.file_name(crawl),
        archive_name: f.archive_name(crawl),
        url: f.download_url(crawl),
        download_bytes: f.download_bytes(),
        unpacked_bytes: f.unpacked_bytes(),
        must_be_unpacked: f.must_be_unpacked(),
    }
}

/// Every name, link and size a user needs to fetch the data for `crawl`.
pub fn setup_guide(crawl: &str) -> (g: SetupGuide)
    ensures
        g.crawl@ == crawl@,
        g.crawl_list_url@ == CRAWL_LIST_URL@,
        g.files@.len() == 3,
        hint_describes(g.files@[0], GraphFile::Vertices, crawl@),
        hint_describes(g.files@[1], GraphFile::Edges, crawl@),
        hint_describes(g.files@[2], GraphFile::Ranks, crawl@),
        g.files@[0].purpose@ == GraphFile::Vertices.purpose_text(),
        g.files@[1].purpose@ == GraphFile::Edges.purpose_text(),
        g.files@[2].purpose@ == GraphFile::Ranks.purpose_text(),
        g.total_download_bytes == spec_download_bytes(GraphFile::Vertices) + spec_download_bytes(GraphFile::Edges)
            + spec_download_bytes(GraphFile::Ranks),
        g.total_resident_bytes == spec_resident_bytes(GraphFile::Vertices) + spec_resident_bytes(GraphFile::Edges)
            + spec_resident_bytes(GraphFile::Ranks),
{
    let mut files: Vec<DownloadHint> = Vec::new();
    files.push(hint_for(GraphFile::Vertices, crawl));
    files.push(hint_for(GraphFile::Edges, crawl));
    files.push(hint_for(GraphFile::Ranks, crawl));
    let total_download = GraphFile::Vertices.download_bytes() + GraphFile::Edges.download_bytes()
        + GraphFile::Ranks.download_bytes();
    let total_resident = GraphFile::Vertices.resident_bytes() + GraphFile::Edges.resident_bytes()
        + GraphFile::Ranks.resident_bytes();
    SetupGuide {
        crawl: string_of(&chars_of(crawl)),
        crawl_list_url: string_of(&chars_of(CRAWL_LIST_URL)),
        files,
        total_download_bytes: total_download,
        total_resident_bytes: total_resident,
    }
}

/// The crawl id a configured file name carries: the part before
/// `-domain-`, when it starts with `cc-`.
pub open spec fn spec_crawl_from_path(path: Seq<char>) -> Option<Seq<char>> {
    match spec_file_name(path) {
        None => None,
        Some(name) => if exists|i: int| occurs_at(name, "-domain-"@, i) {
            let cut = choose|i: int| occurs_at(name, "-domain-"@, i) && forall|j: int| 0 <= j < i ==> !occurs_at(name, "-domain-"@, j);
            let crawl = name.subrange(0, cut);
            if crawl.len() >= 3 && crawl[0] == 'c' && crawl[1] == 'c' && crawl[2] == '-' { Some(crawl) } else { None }
        } else {
            None
        },
    }
}

/// Guess the crawl id from a configured path, so the links point at the
/// release the user already decided on rather than at the default.
pub fn crawl_from_path(path: &str) -> (r: Option<String>)
    ensures
        match r {
            Some(c) => spec_crawl_from_path(path@) == Some(c@),
            None => spec_crawl_from_path(path@) == None::<Seq<char>>,
        },
{
    let name = match file_name_chars(path) {
        Some(n) => n,
        None => return None,
    };
    let pattern = chars_of("-domain-");
    let cut = match find_seq(&name, &pattern) {
        Some(c) => c,
        None => return None,
    };
    proof {
        let w = choose|i: int| occurs_at(name@, "-domain-"@, i) && forall|j: int| 0 <= j < i ==> !occurs_at(name@, "-domain-"@, j);
        assert(occurs_at(name@, "-domain-"@, cut as int));
        if w < cut {
        } else if w > cut {
        }
        assert(w == cut);
    }
    let crawl = crate::text::slice_chars(&name, 0, cut);
    if crawl.len() >= 3 && crawl[0] == 'c' && crawl[1] == 'c' && crawl[2] == '-' {
        Some(string_of(&crawl))
    } else {
        None
    }
}

/// The text block describing one file in the instruction.
pub open spec fn instruction_row(f: GraphFile, crawl: Seq<char>) -> Seq<char> {
    "     "@ + spec_download_url(f, crawl) + "\n       "@ + spec_human_bytes(spec_download_bytes(f) as nat)
        + " — "@ + f.purpose_text() + "\n"@
}

impl GraphFile {
    pub open spec fn purpose_text(self) -> Seq<char> {
        match self {
            GraphFile::Vertices => "Список доменів: номер і назва кожного з ~121 млн доменів."@,
            GraphFile::Edges => "Усі посилання між доменами. Найбільший файл."@,
            GraphFile::Ranks => "PageRank і Harmonic для кожного домену."@,
        }
    }
}

/// The whole instruction text for `crawl` and the folder the files belong in.
pub open spec fn spec_instructions(crawl: Seq<char>, target_dir: Seq<char>) -> Seq<char> {
    let total_download = spec_download_bytes(GraphFile::Vertices) + spec_download_bytes(GraphFile::Edges)
        + spec_download_bytes(GraphFile::Ranks);
    let total_resident = spec_resident_bytes(GraphFile::Vertices) + spec_resident_bytes(GraphFile::Edges)
        + spec_resident_bytes(GraphFile::Ranks);
    "Як отримати дані ("@ + crawl + "):\n\n1. Завантажте три файли (разом ~"@ + spec_human_bytes(total_download as nat)
        + "):\n"@ + instruction_row(GraphFile::Vertices, crawl) + instruction_row(GraphFile::Edges, crawl)
        + instruction_row(GraphFile::Ranks, crawl)
        + "\n2. Розпакуйте vertices і edges (ranks можна лишити .gz — він читається\n   послідовно і не потребує розпакування).\n\n3. Покладіть файли сюди:\n     "@
        + target_dir
        + "\n\n4. Запустіть `web-radar index build`.\n\nРазом на диску після налаштування: ~"@
        + spec_human_bytes(total_resident as nat)
        + ". Новий випуск графа виходить\nраз на 2–3 місяці — перелік: "@ + CRAWL_LIST_URL@ + "\n"@
}

fn push_row(out: &mut Vec<char>, h: &DownloadHint, f: GraphFile, crawl: &str)
    requires
        hint_describes(*h, f, crawl@),
        h.purpose@ == f.purpose_text(),
    ensures
        final(out)@ == old(out)@ + instruction_row(f, crawl@),
{
    append_str(out, "     ");
    append_str(out, h.url.as_str());
    append_str(out, "\n       ");
    let size = human_bytes(h.download_bytes);
    append_str(out, size.as_str());
    append_str(out, " — ");
    append_str(out, h.purpose.as_str());
    append_str(out, "\n");
    assert(final(out)@ =~= old(out)@ + instruction_row(f, crawl@));
}

/// The whole instruction as plain text, for the CLI and for error messages.
pub fn instructions(crawl: &str, target_dir: &str) -> (r: String)
    ensures
        r@ == spec_instructions(crawl@, target_dir@),
{
    let guide = setup_guide(crawl);
    let mut out: Vec<char> = Vec::new();
    append_str(&mut out, "Як отримати дані (");
    append_str(&mut out, crawl);
    append_str(&mut out, "):\n\n1. Завантажте три файли (разом ~");
    let total = human_bytes(guide.total_download_bytes);
    append_str(&mut out, total.as_str());
    append_str(&mut out, "):\n");
    let h0 = hint_for(GraphFile::Vertices, crawl);
    let h1 = hint_for(GraphFile::Edges, crawl);
    let h2 = hint_for(GraphFile::Ranks, crawl);
    push_row(&mut out, &h0, GraphFile::Vertices, crawl);
    push_row(&mut out, &h1, GraphFile::Edges, crawl);
    push_row(&mut out, &h2, GraphFile::Ranks, crawl);
    append_str(&mut out, "\n2. Розпакуйте vertices і edges (ranks можна лишити .gz — він читається\n   послідовно і не потребує розпакування).\n\n3. Покладіть файли сюди:\n     ");
    append_str(&mut out, target_dir);
    append_str(&mut out, "\n\n4. Запустіть `web-radar index build`.\n\nРазом на диску після налаштування: ~");
    let resident = human_bytes(guide.total_resident_bytes);
    append_str(&mut out, resident.as_str());
    append_str(&mut out, ". Новий випуск графа виходить\nраз на 2–3 місяці — перелік: ");
    append_str(&mut out, CRAWL_LIST_URL);
    append_str(&mut out, "\n");
    assert(out@ =~= spec_instructions(crawl@, target_dir@));
    string_of(&out)
}

} // verus!
