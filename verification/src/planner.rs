//! Planning renames: the decisions taken for each scanned file. The caller
//! runs the loop and does the outside work between the steps (the movie
//! lookup, and asking whether the target exists).
use vstd::prelude::*;

use crate::cli::Action;
use crate::matcher::MovieQuery;
use crate::parser::{MediaKind, MediaView, ParsedMedia};
use crate::paths::{is_plain_name, joined, parent_of, path_join, path_parent, paths_equal, same_path};
use crate::template::{render, render_fits, render_template};
use crate::text::{chars_of, string_of};

verus! {

/// One planned file operation.
#[derive(Debug, Clone)]
pub struct Operation {
    pub from: String,
    pub to: String,
    pub action: Action,
}

pub struct OperationView {
    pub from: Seq<char>,
    pub to: Seq<char>,
    pub action: Action,
}

impl View for Operation {
    type V = OperationView;

    open spec fn view(&self) -> OperationView {
        OperationView { from: self.from@, to: self.to@, action: self.action }
    }
}

/// The plan: operations to run, files skipped because nothing was
/// recognised in their names, and targets skipped because they exist.
#[derive(Debug)]
pub struct PlanResult {
    pub ops: Vec<Operation>,
    pub skipped_unknown: Vec<String>,
    pub skipped_conflicts: Vec<String>,
}

pub struct PlanView {
    pub ops: Seq<OperationView>,
    pub skipped_unknown: Seq<Seq<char>>,
    pub skipped_conflicts: Seq<Seq<char>>,
}

impl View for PlanResult {
    type V = PlanView;

    open spec fn view(&self) -> PlanView {
        PlanView {
            ops: self.ops@.map_values(|o: Operation| o@),
            skipped_unknown: self.skipped_unknown@.map_values(|s: String| s@),
            skipped_conflicts: self.skipped_conflicts@.map_values(|s: String| s@),
        }
    }
}

/// The number of files a plan accounts for.
pub open spec fn plan_size(p: PlanView) -> nat {
    p.ops.len() + p.skipped_unknown.len() + p.skipped_conflicts.len()
}

impl PlanResult {
    /// An empty plan.
    pub fn new() -> (r: PlanResult)
        ensures
            r@.ops.len() == 0,
            r@.skipped_unknown.len() == 0,
            r@.skipped_conflicts.len() == 0,
    {
        PlanResult { ops: Vec::new(), skipped_unknown: Vec::new(), skipped_conflicts: Vec::new() }
    }

    /// Records a file whose name was not recognised.
    pub fn record_unknown(&mut self, file: &str)
        ensures
            final(self)@.ops == old(self)@.ops,
            final(self)@.skipped_unknown == old(self)@.skipped_unknown.push(file@),
            final(self)@.skipped_conflicts == old(self)@.skipped_conflicts,
            plan_size(final(self)@) == plan_size(old(self)@) + 1,
    {
        let ghost before = self.skipped_unknown@;
        self.skipped_unknown.push(file.to_owned());
        assert(self.skipped_unknown@.map_values(|s: String| s@) =~= before.map_values(
            |s: String| s@,
        ).push(file@));
    }

    /// Records the target `to` planned for `file`: a conflict when `to`
    /// exists and is another path than `file`, an operation otherwise.
    pub fn record_target(&mut self, file: &str, to: String, exists: bool, action: Action)
        ensures
            exists && !same_path(to@, file@) ==> {
                &&& final(self)@.skipped_conflicts == old(self)@.skipped_conflicts.push(to@)
                &&& final(self)@.ops == old(self)@.ops
            },
            !(exists && !same_path(to@, file@)) ==> {
                &&& final(self)@.ops == old(self)@.ops.push(
                    OperationView { from: file@, to: to@, action },
                )
                &&& final(self)@.skipped_conflicts == old(self)@.skipped_conflicts
            },
            final(self)@.skipped_unknown == old(self)@.skipped_unknown,
            plan_size(final(self)@) == plan_size(old(self)@) + 1,
    {
        let ghost ops = self.ops@;
        let ghost conflicts = self.skipped_conflicts@;
        if exists && !paths_equal(to.as_str(), file) {
            let ghost t = to@;
            self.skipped_conflicts.push(to);
            assert(self.skipped_conflicts@.map_values(|s: String| s@) =~= conflicts.map_values(
                |s: String| s@,
            ).push(t));
        } else {
            let op = Operation { from: file.to_owned(), to, action };
            let ghost ov = op@;
            self.ops.push(op);
            assert(self.ops@.map_values(|o: Operation| o@) =~= ops.map_values(|o: Operation| o@).push(
                ov,
            ));
        }
    }
}

impl Default for PlanResult {
    /// An empty plan.
    fn default() -> (r: PlanResult)
        ensures
            r@.ops.len() == 0,
            r@.skipped_unknown.len() == 0,
            r@.skipped_conflicts.len() == 0,
    {
        PlanResult::new()
    }
}

/// The settings of a planning run (the movie database client is kept by
/// the caller).
pub struct PlanOptions<'a> {
    pub format: &'a str,
    pub action: Action,
    pub output: Option<&'a str>,
    pub use_tmdb: bool,
    pub tmdb_key: Option<&'a str>,
    pub language: &'a str,
}

/// What to do with a file once its name has been read.
#[derive(Debug)]
pub enum FileStep {
    /// Nothing recognised: report the file as unknown.
    SkipUnknown,
    /// Ask the movie database with `query` and `key`, then render.
    Lookup { media: ParsedMedia, query: MovieQuery, key: String },
    /// Render the target name from `media` as it is.
    Render(ParsedMedia),
}

/// An optional string slice as an optional character sequence.
pub open spec fn opt_str(o: Option<&str>) -> Option<Seq<char>> {
    match o {
        Some(s) => Some(s@),
        None => None,
    }
}

/// A movie lookup is asked for when the database is in use, the file is a
/// movie, and there are a key, a client and a title.
pub open spec fn wants_lookup(
    media: MediaView,
    use_tmdb: bool,
    has_key: bool,
    client_available: bool,
) -> bool {
    use_tmdb && media.kind == MediaKind::Movie && has_key && client_available && media.title is Some
}

/// The first decision for a file whose name was read as `media`.
pub fn first_step(media: ParsedMedia, opts: &PlanOptions, client_available: bool) -> (r: FileStep)
    ensures
        media@.kind == MediaKind::Unknown ==> r is SkipUnknown,
        media@.kind != MediaKind::Unknown && wants_lookup(
            media@,
            opts.use_tmdb,
            opts.tmdb_key is Some,
            client_available,
        ) ==> (r matches FileStep::Lookup { media: m, query: q, key: k } && m@ == media@ && Some(
            q.title@,
        ) == media@.title && q.year == media@.year && q.language@ == opts.language@
            && Some(k@) == opt_str(opts.tmdb_key)),
        media@.kind != MediaKind::Unknown && !wants_lookup(
            media@,
            opts.use_tmdb,
            opts.tmdb_key is Some,
            client_available,
        ) ==> (r matches FileStep::Render(m) && m@ == media@),
{
    if media.kind == MediaKind::Unknown {
        return FileStep::SkipUnknown;
    }
    if opts.use_tmdb && media.kind == MediaKind::Movie && client_available {
        match (opts.tmdb_key, &media.title_guess) {
            (Some(key), Some(title)) => {
                let query = MovieQuery {
                    title: title.clone(),
                    year: media.year_guess,
                    language: opts.language.to_owned(),
                };
                return FileStep::Lookup { media, query, key: key.to_owned() };
            },
            _ => {},
        }
    }
    FileStep::Render(media)
}

/// `media` with the title and year of the movie that was found.
pub fn with_match(media: ParsedMedia, title: String, year: Option<u16>) -> (r: ParsedMedia)
    ensures
        r@ == (MediaView { title: Some(title@), year, ..media@ }),
{
    ParsedMedia { title_guess: Some(title), year_guess: year, ..media }
}

/// The file name planned from a rendered name: `untitled` when it is
/// empty, and every `/` turned into `_`.
pub open spec fn target_name_spec(rendered: Seq<char>) -> Seq<char> {
    let name = if rendered.len() == 0 {
        "untitled"@
    } else {
        rendered
    };
    name.map_values(|c: char| if c == '/' { '_' } else { c })
}

/// The directory a target goes to: the output directory when one is given,
/// else the file's parent, else `.`.
pub open spec fn destination_spec(file: Seq<char>, output: Option<Seq<char>>) -> Seq<char> {
    match output {
        Some(o) => o,
        None => match parent_of(file) {
            Some(p) => p,
            None => "."@,
        },
    }
}

/// The target path planned for `file`, read as `media`.
pub open spec fn target_spec(
    file: Seq<char>,
    media: MediaView,
    format: Seq<char>,
    output: Option<Seq<char>>,
) -> Seq<char> {
    joined(destination_spec(file, output), target_name_spec(render(format, media)))
}

/// `target_name_spec`, computed.
pub fn target_name(rendered: &str) -> (r: String)
    ensures
        r@ == target_name_spec(rendered@),
        r@.len() > 0,
        forall|i: int| 0 <= i < r@.len() ==> #[trigger] r@[i] != '/',
{
    proof {
        lemma_target_name_shape(rendered@);
    }
    let src = if rendered.is_empty() {
        chars_of("untitled")
    } else {
        chars_of(rendered)
    };
    let mut out: Vec<char> = Vec::new();
    let mut i: usize = 0;
    while i < src.len()
        invariant
            i <= src.len(),
            out@ == src@.take(i as int).map_values(|c: char| if c == '/' { '_' } else { c }),
        decreases src.len() - i,
    {
        let c = src[i];
        let d = if c == '/' {
            '_'
        } else {
            c
        };
        out.push(d);
        i = i + 1;
        assert(src@.take(i as int).map_values(|c: char| if c == '/' { '_' } else { c }) == src@.take(
            (i - 1) as int,
        ).map_values(|c: char| if c == '/' { '_' } else { c }).push(d));
    }
    assert(src@.take(src.len() as int) == src@);
    string_of(&out)
}

/// `destination_spec`, computed.
fn destination(file: &str, output: Option<&str>) -> (r: String)
    ensures
        r@ == destination_spec(file@, opt_str(output)),
        output is None && is_plain_name(file@) ==> r@.len() == 0,
{
    match output {
        Some(o) => o.to_owned(),
        None => match path_parent(file) {
            Some(p) => p,
            None => ".".to_owned(),
        },
    }
}

/// The target path for `file`, read as `media`: the rendered name (see
/// `target_name_spec`) joined to the destination directory.
pub fn target_for(file: &str, media: &ParsedMedia, opts: &PlanOptions) -> (r: String)
    requires
        render_fits(opts.format@, media@),
    ensures
        r@ == target_spec(
            file@,
            media@,
            opts.format@,
            opt_str(opts.output),
        ),
        opts.output is None && is_plain_name(file@) && is_plain_name(
            target_name_spec(render(opts.format@, media@)),
        ) ==> r@ == target_name_spec(render(opts.format@, media@)),
{
    let rendered = render_template(opts.format, media);
    let name = target_name(rendered.as_str());
    let dest = destination(file, opts.output);
    path_join(dest.as_str(), name.as_str())
}


/// A planned file name is never empty and never holds a `/`.
pub proof fn lemma_target_name_shape(rendered: Seq<char>)
    ensures
        target_name_spec(rendered).len() > 0,
        forall|i: int|
            0 <= i < target_name_spec(rendered).len() ==> #[trigger] target_name_spec(rendered)[i]
                != '/',
{
    reveal_strlit("untitled");
}

} // verus!
