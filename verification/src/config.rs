//! What a run is configured with: the header template, the year, the licensee
//! and the licenses to avoid.

use crate::outside::current_year;
use vstd::prelude::*;

verus! {

/// Settings of the license check and of the header formatter.
///
/// - `avoid`: the licenses that the license check flags.
/// - `license_header_template`: the template of the license header.
/// - `license_year`: the year that stands for `{year}` in the template.
/// - `licensee`: the name that stands for `{licensee}` in the template.
#[derive(Debug, Clone)]
pub struct Config {
    pub avoid: Vec<String>,
    pub license_header_template: Option<String>,
    pub license_year: i64,
    pub licensee: Option<String>,
}

/// Why a configuration cannot be used to format headers.
#[derive(Debug, Clone, Copy, PartialEq, Eq, Structural)]
pub enum ConfigError {
    /// No header template is configured.
    NoTemplate,
    /// The template holds `{licensee}` and no licensee is configured.
    MissingLicensee,
    /// The settings file is no valid TOML.
    InvalidToml,
}

impl ConfigError {
    /// The message shown for this error.
    pub fn message(&self) -> (s: String)
        ensures
            s@ == match *self {
                ConfigError::NoTemplate => "No license header found in config file."@,
                ConfigError::MissingLicensee => "{licensee} template found in header but no value provided in config or command line."@,
                ConfigError::InvalidToml => "The config file is not valid TOML."@,
            },
    {
        match self {
            ConfigError::NoTemplate => String::from_str("No license header found in config file."),
            ConfigError::MissingLicensee => String::from_str(
                "{licensee} template found in header but no value provided in config or command line.",
            ),
            ConfigError::InvalidToml => String::from_str("The config file is not valid TOML."),
        }
    }
}

impl Config {
    /// The configuration with nothing set, for the year `license_year`.
    pub fn with_year(license_year: i64) -> (c: Config)
        ensures
            c.avoid@.len() == 0,
            c.license_header_template is None,
            c.license_year == license_year,
            c.licensee is None,
    {
        Config { avoid: Vec::new(), license_header_template: None, license_year, licensee: None }
    }

    /// The configuration with nothing set, for the current calendar year.
    /// Which year that is depends on the clock: whatever it says, the result is
    /// `Config::with_year` of a year that fits in an `i32`.
    pub fn default() -> (c: Config)
        ensures
            c.avoid@.len() == 0,
            c.license_header_template is None,
            i32::MIN <= c.license_year <= i32::MAX,
            c.licensee is None,
    {
        Config::with_year(current_year())
    }

    /// The text of the template, where one is configured.
    pub open spec fn template_text(&self) -> Option<Seq<char>> {
        match self.license_header_template {
            Some(t) => Some(t@),
            None => None,
        }
    }

    /// The text of the licensee, where one is configured.
    pub open spec fn licensee_text(&self) -> Option<Seq<char>> {
        match self.licensee {
            Some(l) => Some(l@),
            None => None,
        }
    }

    /// The configuration with what the command line gives: a licensee or a year
    /// given there takes the place of the configured one.
    pub open spec fn with_overrides(
        self,
        cl_licensee: Option<String>,
        cl_license_year: Option<u16>,
    ) -> Config {
        Config {
            avoid: self.avoid,
            license_header_template: self.license_header_template,
            license_year: match cl_license_year {
                Some(y) => y as i64,
                None => self.license_year,
            },
            licensee: match cl_licensee {
                Some(l) => Some(l),
                None => self.licensee,
            },
        }
    }

    /// Applies what the command line gives: a licensee or a year given there
    /// takes the place of the configured one.
    pub fn apply_overrides(&mut self, cl_licensee: &Option<String>, cl_license_year: &Option<u16>)
        ensures
            *final(self) == old(self).with_overrides(*cl_licensee, *cl_license_year),
    {
        if let Some(licensee) = cl_licensee {
            self.licensee = Some(licensee.clone());
        }
        if let Some(year) = cl_license_year {
            self.license_year = *year as i64;
        }
    }
}

} // verus!
