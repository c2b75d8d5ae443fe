//! The settings of the process and the text of a fresh settings file.

use crate::outside::{debug_string, debug_text};
use crate::text::{decimal, push_decimal};
use vstd::prelude::*;
use vstd::string::StringExecFns;

verus! {

/// The value of the settings.
pub struct Settings {
    pub project_name: Seq<char>,
    pub port: u16,
    pub sourcemap_directory: Seq<char>,
    pub file_paths_scrape_directory: Seq<char>,
    pub log_level: Seq<char>,
}

/// What the process is run with.
#[derive(Debug)]
pub struct Config {
    /// The name of the project
    pub project_name: String,
    /// Port to run the server on
    pub port: u16,
    /// Directory to place `sourcemap.json`
    pub sourcemap_directory: String,
    /// Directory to scrape for file paths
    pub file_paths_scrape_directory: String,
    /// Minimum log level to output
    pub log_level: String,
}

impl View for Config {
    type V = Settings;

    open spec fn view(&self) -> Settings {
        Settings {
            project_name: self.project_name@,
            port: self.port,
            sourcemap_directory: self.sourcemap_directory@,
            file_paths_scrape_directory: self.file_paths_scrape_directory@,
            log_level: self.log_level@,
        }
    }
}

impl Clone for Config {
    fn clone(&self) -> (copy: Self)
        ensures
            copy@ == self@,
    {
        Config {
            project_name: self.project_name.clone(),
            port: self.port,
            sourcemap_directory: self.sourcemap_directory.clone(),
            file_paths_scrape_directory: self.file_paths_scrape_directory.clone(),
            log_level: self.log_level.clone(),
        }
    }
}

/// The port that is listened on unless the settings name another.
pub const DEFAULT_PORT: u16 = 33752;

/// The settings of a project that has set nothing itself.
pub open spec fn default_settings(project_name: Seq<char>) -> Settings {
    Settings {
        project_name,
        port: DEFAULT_PORT,
        sourcemap_directory: "."@,
        file_paths_scrape_directory: "."@,
        log_level: "info"@,
    }
}

/// The text of a settings file: a line that names the schema, the table's
/// header, and one line for each setting. The strings stand as they are
/// given, so they come with their quotes.
pub open spec fn settings_document(
    project_name: Seq<char>,
    port: u16,
    sourcemap_directory: Seq<char>,
    file_paths_scrape_directory: Seq<char>,
    log_level: Seq<char>,
) -> Seq<char> {
    "#:schema https://raw.githubusercontent.com/angeld23/axosync/refs/heads/main/schema.json"@
        + "\n\n[config]"@ + "\nproject_name = "@ + project_name + "\nport = "@ + decimal(
        port as nat,
    ) + "\nsourcemap_directory = "@ + sourcemap_directory + "\nfile_paths_scrape_directory = "@
        + file_paths_scrape_directory + "\nlog_level = "@ + log_level
}

/// The text of a settings file with these entries, each string as it is to
/// stand in the file.
pub fn write_settings(
    project_name: &str,
    port: u16,
    sourcemap_directory: &str,
    file_paths_scrape_directory: &str,
    log_level: &str,
) -> (text: String)
    ensures
        text@ == settings_document(
            project_name@,
            port,
            sourcemap_directory@,
            file_paths_scrape_directory@,
            log_level@,
        ),
{
    let mut text = String::from_str(
        "#:schema https://raw.githubusercontent.com/angeld23/axosync/refs/heads/main/schema.json",
    );
    text.append("\n\n[config]");
    text.append("\nproject_name = ");
    text.append(project_name);
    text.append("\nport = ");
    push_decimal(&mut text, port as u64);
    text.append("\nsourcemap_directory = ");
    text.append(sourcemap_directory);
    text.append("\nfile_paths_scrape_directory = ");
    text.append(file_paths_scrape_directory);
    text.append("\nlog_level = ");
    text.append(log_level);
    text
}

impl Config {
    /// The file that holds the settings, in the directory the process runs in.
    pub const PATH: &'static str = "axosync.toml";

    /// The settings of a project called `project_name` that has set nothing
    /// else.
    pub fn with_project_name(project_name: String) -> (config: Config)
        ensures
            config@ == default_settings(project_name@),
    {
        Config {
            project_name,
            port: DEFAULT_PORT,
            sourcemap_directory: String::from_str("."),
            file_paths_scrape_directory: String::from_str("."),
            log_level: String::from_str("info"),
        }
    }

    /// The settings file that holds these settings, every string written the
    /// way `{:?}` writes it.
    pub fn settings_text(&self) -> (text: String)
        ensures
            text@ == settings_document(
                debug_text(self@.project_name),
                self@.port,
                debug_text(self@.sourcemap_directory),
                debug_text(self@.file_paths_scrape_directory),
                debug_text(self@.log_level),
            ),
    {
        let project_name = debug_string(self.project_name.as_str());
        let sourcemap_directory = debug_string(self.sourcemap_directory.as_str());
        let file_paths_scrape_directory = debug_string(self.file_paths_scrape_directory.as_str());
        let log_level = debug_string(self.log_level.as_str());
        write_settings(
            project_name.as_str(),
            self.port,
            sourcemap_directory.as_str(),
            file_paths_scrape_directory.as_str(),
            log_level.as_str(),
        )
    }
}

} // verus!
