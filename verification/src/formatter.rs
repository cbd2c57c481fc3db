//! The formatter: one configuration and its rendered header, applied to the
//! content of one file after the other.

use crate::config::{Config, ConfigError};
use crate::extract::{comment_block, comment_run_chars, insert_offset, skipped_len_chars};
use crate::header::{comparison_template, format_header, header_of};
use crate::matcher::{check_license_chars, check_result, LicenseCheckRes};
use crate::text::{from_chars, to_chars};
use crate::writer::{
    insert_at_char, inserted, lemma_char_index_of_offset, replace_span_chars, updated,
};
use vstd::prelude::*;

verus! {

/// What the formatter found in one file, and what it made of it.
#[derive(Debug)]
pub struct FileOutcome {
    /// The classification of the file's first comment block.
    pub status: LicenseCheckRes,
    /// The file has no current header.
    pub needs_fix: bool,
    /// The content to write back, where the file is rewritten.
    pub new_content: Option<String>,
}

/// What the formatter makes of a file: the classification of its first comment
/// block, whether the file needs a fix, and the new content. A run that only
/// checks rewrites nothing. Otherwise a missing header is put in, an outdated
/// one gives way to the current one, and a current header leaves the file
/// alone.
pub open spec fn outcome_of(
    content: Seq<char>,
    header: Seq<char>,
    template: Seq<char>,
    year: int,
    dry_run: bool,
) -> (LicenseCheckRes, bool, Option<Seq<char>>) {
    let (span, status) = check_result(comment_block(content), template, year);
    let needs_fix = status != LicenseCheckRes::Found;
    let new_content = if dry_run {
        None
    } else {
        match status {
            LicenseCheckRes::Missing => inserted(content, header, insert_offset(content)),
            LicenseCheckRes::Outdated => updated(content, span, header),
            LicenseCheckRes::Found => None,
        }
    };
    (status, needs_fix, new_content)
}

/// The content that a file has after the formatter ran on it in fix mode.
pub open spec fn fixed_content(
    content: Seq<char>,
    header: Seq<char>,
    template: Seq<char>,
    year: int,
) -> Seq<char> {
    match outcome_of(content, header, template, year, false).2 {
        Some(t) => t,
        None => content,
    }
}

/// Checks the content of a file against a template and, unless `dry_run` is
/// set, rewrites it with `header`.
pub fn format_content(
    content: &str,
    header: &str,
    template: &str,
    license_year: i64,
    dry_run: bool,
) -> (r: FileOutcome)
    ensures
        (
            r.status,
            r.needs_fix,
            match r.new_content {
                Some(t) => Some(t@),
                None => None,
            },
        ) == outcome_of(content@, header@, template@, license_year as int, dry_run),
{
    let c = to_chars(content);
    let t = to_chars(template);
    let k = skipped_len_chars(&c);
    let block = comment_run_chars(&c, k);
    let (span, status) = check_license_chars(&block, &t, license_year);
    let needs_fix = match status {
        LicenseCheckRes::Found => false,
        _ => true,
    };
    if dry_run {
        return FileOutcome { status, needs_fix, new_content: None };
    }
    let new_content = match status {
        LicenseCheckRes::Missing => {
            let h = to_chars(header);
            proof {
                lemma_char_index_of_offset(c@, k as int);
            }
            Some(from_chars(&insert_at_char(&c, &h, k)))
        },
        LicenseCheckRes::Outdated => {
            let h = to_chars(header);
            match replace_span_chars(&c, &span, &h) {
                Some(out) => Some(from_chars(&out)),
                None => None,
            }
        },
        LicenseCheckRes::Found => None,
    };
    FileOutcome { status, needs_fix, new_content }
}

/// Number of files that need a fix among the outcomes `flags`.
pub open spec fn count_true(flags: Seq<bool>) -> nat
    decreases flags.len(),
{
    if flags.len() == 0 {
        0
    } else {
        count_true(flags.drop_last()) + if flags.last() {
            1nat
        } else {
            0nat
        }
    }
}

/// Counts the files that needed a fix.
pub fn count_fixes(flags: &Vec<bool>) -> (n: usize)
    ensures
        n == count_true(flags@),
{
    let mut n: usize = 0;
    let mut i: usize = 0;
    assert(flags@.take(0) =~= Seq::<bool>::empty());
    while i < flags.len()
        invariant
            i <= flags.len(),
            n <= i,
            n == count_true(flags@.take(i as int)),
        decreases flags.len() - i,
    {
        assert(flags@.take(i + 1).drop_last() =~= flags@.take(i as int));
        if flags[i] {
            n += 1;
        }
        i += 1;
    }
    assert(flags@.take(flags.len() as int) =~= flags@);
    n
}

/// The formatter of a run: the files to work on, the rendered header, the
/// configuration it was rendered from, and the two switches of the run.
pub struct Formatter {
    files: Vec<String>,
    header: String,
    config: Config,
    silent: bool,
    dry_run: bool,
}

impl Formatter {
    /// A formatter holds a configuration with a template, and the header that
    /// this configuration renders.
    #[verifier::type_invariant]
    pub closed spec fn wf(&self) -> bool {
        header_of(self.config) == Ok::<Seq<char>, ConfigError>(self.header@)
    }

    /// The configuration of the run.
    pub closed spec fn config_view(&self) -> Config {
        self.config
    }

    /// The header that the run writes.
    pub closed spec fn header_view(&self) -> Seq<char> {
        self.header@
    }

    /// The files of the run.
    pub closed spec fn files_view(&self) -> Seq<String> {
        self.files@
    }

    /// Whether the run only checks.
    pub closed spec fn dry_run_view(&self) -> bool {
        self.dry_run
    }

    /// Whether the run prints nothing.
    pub closed spec fn silent_view(&self) -> bool {
        self.silent
    }

    /// Makes the formatter of a run from its configuration, its files and what
    /// the command line gives. A licensee and a year of the command line come
    /// before those of the configuration. Fails where the configuration has no
    /// template, or where the template asks for a licensee and none is given.
    pub fn new(
        config: Config,
        files: Vec<String>,
        cl_licensee: &Option<String>,
        cl_license_year: &Option<u16>,
        silent: bool,
        dry_run: bool,
    ) -> (r: Result<Formatter, ConfigError>)
        ensures
            match r {
                Ok(f) => {
                    &&& f.config_view() == config.with_overrides(*cl_licensee, *cl_license_year)
                    &&& header_of(f.config_view()) == Ok::<Seq<char>, ConfigError>(f.header_view())
                    &&& f.files_view() == files@
                    &&& f.silent_view() == silent
                    &&& f.dry_run_view() == dry_run
                },
                Err(e) => header_of(config.with_overrides(*cl_licensee, *cl_license_year)) == Err::<
                    Seq<char>,
                    ConfigError,
                >(e),
            },
    {
        let mut config = config;
        config.apply_overrides(cl_licensee, cl_license_year);
        match format_header(&config) {
            Err(e) => Err(e),
            Ok(header) => Ok(Formatter { files, header, config, silent, dry_run }),
        }
    }

    /// The rendered header: what the configuration of the run renders.
    pub fn header(&self) -> (h: &String)
        ensures
            h@ == self.header_view(),
            header_of(self.config_view()) == Ok::<Seq<char>, ConfigError>(h@),
    {
        proof {
            use_type_invariant(self);
        }
        &self.header
    }

    /// The files of the run.
    pub fn files(&self) -> (f: &Vec<String>)
        ensures
            f@ == self.files_view(),
    {
        &self.files
    }

    /// The configuration of the run.
    pub fn config(&self) -> (c: &Config)
        ensures
            *c == self.config_view(),
    {
        &self.config
    }

    /// Whether the run prints nothing.
    pub fn silent(&self) -> (b: bool)
        ensures
            b == self.silent_view(),
    {
        self.silent
    }

    /// Whether the run only checks.
    pub fn dry_run(&self) -> (b: bool)
        ensures
            b == self.dry_run_view(),
    {
        self.dry_run
    }

    /// Runs the check on the content of one file and, unless the run only
    /// checks, the formatter too. The header that is written is the one that
    /// the configuration of the run renders.
    pub fn format_file(&self, content: &str) -> (r: FileOutcome)
        ensures
            header_of(self.config_view()) == Ok::<Seq<char>, ConfigError>(self.header_view()),
            (
                r.status,
                r.needs_fix,
                match r.new_content {
                    Some(t) => Some(t@),
                    None => None,
                },
            ) == outcome_of(
                content@,
                self.header_view(),
                comparison_template(self.config_view()),
                self.config_view().license_year as int,
                self.dry_run_view(),
            ),
    {
        proof {
            use_type_invariant(self);
        }
        let text = crate::header::comparison_pattern(&self.config);
        format_content(
            content,
            self.header.as_str(),
            text.as_str(),
            self.config.license_year,
            self.dry_run,
        )
    }
}

} // verus!
