//! Editions, versions and the Pro license.

use vstd::prelude::*;

use crate::report::{cat, cat3, cat4, note, out, Line, Said};

verus! {

// ---------------------------------------------------------------------------
// Edition and version
// ---------------------------------------------------------------------------

/// The name of an edition. Tiers are known by their ranks; from the rank of
/// Pro on the edition is `Pro`, and below it has no name.
pub open spec fn edition(tier: nat, pro: nat) -> Seq<char> {
    if tier >= pro {
        "Pro"@
    } else {
        ""@
    }
}

/// Names the edition of a tier.
pub fn edition_name(tier: u32, pro: u32) -> (r: &'static str)
    ensures
        r@ == edition(tier as nat, pro as nat),
{
    if tier >= pro {
        "Pro"
    } else {
        ""
    }
}

/// The version as it is shown: with the edition, if it has a name, and with
/// the version to upgrade to, if there is one.
pub open spec fn shown_version(
    version: Seq<char>,
    edition: Seq<char>,
    latest: Option<Seq<char>>,
) -> Seq<char> {
    let base = if edition.len() == 0 {
        version
    } else {
        version + " ("@ + edition + ")"@
    };
    match latest {
        Some(v) => base + "\n  Update available: v"@ + v + " → brew upgrade sentrux"@,
        None => base,
    }
}

/// Writes the version.
pub fn version_string(version: &str, edition: &str, latest: &Option<String>) -> (r: String)
    ensures
        r@ == shown_version(version@, edition@, latest.deep_view()),
{
    let base = if edition.is_empty() {
        version.to_owned()
    } else {
        cat4(version, " (", edition, ")")
    };
    match latest {
        Some(v) => cat4(&base, "\n  Update available: v", v, " → brew upgrade sentrux"),
        None => base,
    }
}

/// The version text of a process: written once, and the same ever after.
pub struct VersionText {
    text: Option<String>,
}

impl View for VersionText {
    type V = Option<Seq<char>>;

    closed spec fn view(&self) -> Option<Seq<char>> {
        self.text.deep_view()
    }
}

/// What is kept of a text that may have been written before.
pub open spec fn kept(stored: Option<Seq<char>>, fresh: Seq<char>) -> Seq<char> {
    match stored {
        Some(text) => text,
        None => fresh,
    }
}

impl VersionText {
    /// A version text that is not written yet.
    pub fn new() -> (r: Self)
        ensures
            r@ == None::<Seq<char>>,
    {
        VersionText { text: None }
    }

    /// Gives the version text. The first call writes it, and later calls give
    /// the same text whatever the edition and the update are by then.
    pub fn get(&mut self, version: &str, edition: &str, latest: &Option<String>) -> (r: String)
        ensures
            r@ == kept(old(self)@, shown_version(version@, edition@, latest.deep_view())),
            final(self)@ == Some(r@),
    {
        match &self.text {
            Some(text) => text.clone(),
            None => {
                let text = version_string(version, edition, latest);
                self.text = Some(text.clone());
                text
            }
        }
    }
}

/// What is known of the version at a call.
pub struct VersionFacts {
    pub version: Seq<char>,
    pub edition: Seq<char>,
    pub latest: Option<Seq<char>>,
}

/// What calls of [`VersionText::get`] give, one after the other.
pub open spec fn given_versions(stored: Option<Seq<char>>, calls: Seq<VersionFacts>) -> Seq<
    Seq<char>,
>
    decreases calls.len(),
{
    if calls.len() == 0 {
        Seq::empty()
    } else {
        let c = calls[0];
        let text = kept(stored, shown_version(c.version, c.edition, c.latest));
        seq![text] + given_versions(Some(text), calls.skip(1))
    }
}

/// Once a text is stored, every call gives it.
proof fn lemma_stored_version(text: Seq<char>, calls: Seq<VersionFacts>)
    ensures
        given_versions(Some(text), calls).len() == calls.len(),
        forall|i: int| 0 <= i < calls.len() ==> #[trigger] given_versions(Some(text), calls)[i] == text,
    decreases calls.len(),
{
    if calls.len() > 0 {
        lemma_stored_version(text, calls.skip(1));
        assert forall|i: int| 0 <= i < calls.len() implies #[trigger] given_versions(
            Some(text),
            calls,
        )[i] == text by {
            if i > 0 {
                assert(given_versions(Some(text), calls)[i] == given_versions(
                    Some(text),
                    calls.skip(1),
                )[i - 1]);
            }
        }
    }
}

/// The version text of the first call is the text of every call.
pub proof fn law_version_is_kept(calls: Seq<VersionFacts>)
    requires
        calls.len() > 0,
    ensures
        given_versions(None, calls).len() == calls.len(),
        forall|i: int|
            0 <= i < calls.len() ==> #[trigger] given_versions(None, calls)[i] == shown_version(
                calls[0].version,
                calls[0].edition,
                calls[0].latest,
            ),
{
    let c = calls[0];
    let text = shown_version(c.version, c.edition, c.latest);
    lemma_stored_version(text, calls.skip(1));
    assert forall|i: int| 0 <= i < calls.len() implies #[trigger] given_versions(None, calls)[i]
        == text by {
        if i > 0 {
            assert(given_versions(None, calls)[i] == given_versions(
                Some(text),
                calls.skip(1),
            )[i - 1]);
        }
    }
}

/// The title of the window.
pub open spec fn title(version: Seq<char>, edition: Seq<char>) -> Seq<char> {
    if edition.len() == 0 {
        "sentrux v"@ + version
    } else {
        "Sentrux "@ + edition + " v"@ + version
    }
}

/// Writes the title of the window.
pub fn window_title(version: &str, edition: &str) -> (r: String)
    ensures
        r@ == title(version@, edition@),
{
    if edition.is_empty() {
        cat("sentrux v", version)
    } else {
        cat4("Sentrux ", edition, " v", version)
    }
}

// ---------------------------------------------------------------------------
// Activation
// ---------------------------------------------------------------------------

/// A license that was found valid.
#[derive(Debug, PartialEq, Eq)]
pub struct License {
    /// Who it is for.
    pub user: String,
    /// The tier that it gives.
    pub tier: String,
    /// When it ends.
    pub expires: String,
    /// Its number.
    pub id: String,
}

/// What lies at the path of a key file.
#[derive(Debug, PartialEq, Eq)]
pub enum KeyFile {
    /// Nothing.
    Missing,
    /// A file that cannot be read, for this reason.
    Unreadable(String),
    /// A file with this content.
    Content(String),
}

/// What activation asks for next.
#[derive(Debug, PartialEq, Eq)]
pub enum ActivateStep {
    /// Read the key file at this path.
    ReadKey(String),
    /// Find out whether this key is valid.
    Validate(String),
    /// Find the home directory, to save the key there.
    FindHome(License, String),
    /// Save the key.
    Save(License, String),
    /// Write these lines and stop.
    Done(Vec<Line>),
}

/// What an [`ActivateStep`] holds.
pub enum Stage {
    ReadKey(Seq<char>),
    Validate(Seq<char>),
    FindHome(License, Seq<char>),
    Save(License, Seq<char>),
    Done(Seq<Said>),
}

impl DeepView for ActivateStep {
    type V = Stage;

    open spec fn deep_view(&self) -> Stage {
        match self {
            ActivateStep::ReadKey(path) => Stage::ReadKey(path@),
            ActivateStep::Validate(key) => Stage::Validate(key@),
            ActivateStep::FindHome(license, key) => Stage::FindHome(*license, key@),
            ActivateStep::Save(license, key) => Stage::Save(*license, key@),
            ActivateStep::Done(lines) => Stage::Done(lines.deep_view()),
        }
    }
}

/// Whether the user gave a key as JSON text, which opens with a brace.
pub open spec fn is_inline_key(key_input: Seq<char>) -> bool {
    key_input.len() > 0 && key_input[0] == '{'
}

/// How activation begins: with the key itself, or with the file that holds it.
pub open spec fn begin(key_input: Seq<char>) -> Stage {
    if is_inline_key(key_input) {
        Stage::Validate(key_input)
    } else {
        Stage::ReadKey(key_input)
    }
}

/// How activation goes on with a key file.
pub open spec fn after_read(file: KeyFile) -> Stage {
    match file {
        KeyFile::Content(content) => Stage::Validate(content@),
        KeyFile::Unreadable(e) => Stage::Done(
            seq![Said::Note("Failed to read key file: "@ + e@)],
        ),
        KeyFile::Missing => Stage::Done(
            seq![Said::Note("Invalid key: not a JSON string or file path"@)],
        ),
    }
}

/// How activation goes on with the license of a key.
pub open spec fn after_validation(key_json: Seq<char>, license: Option<License>) -> Stage {
    match license {
        Some(l) => Stage::FindHome(l, key_json),
        None => Stage::Done(seq![Said::Note("Invalid or expired license key."@)]),
    }
}

/// How activation goes on once it is known whether there is a home directory.
pub open spec fn after_home(license: License, key_json: Seq<char>, found: bool) -> Stage {
    if found {
        Stage::Save(license, key_json)
    } else {
        Stage::Done(seq![Said::Note("Cannot find home directory"@)])
    }
}

/// Begins activation with what the user gave: a key as JSON text, or the path
/// of a file that holds one.
pub fn pro_activate(key_input: &str) -> (r: ActivateStep)
    ensures
        r.deep_view() == begin(key_input@),
{
    if key_input.unicode_len() > 0 && key_input.get_char(0) == '{' {
        ActivateStep::Validate(key_input.to_owned())
    } else {
        ActivateStep::ReadKey(key_input.to_owned())
    }
}

/// Goes on with what lies at the path of the key file.
pub fn key_read(file: KeyFile) -> (r: ActivateStep)
    ensures
        r.deep_view() == after_read(file),
{
    match file {
        KeyFile::Content(content) => ActivateStep::Validate(content),
        KeyFile::Unreadable(e) => {
            let lines = vec![Line::Note(cat("Failed to read key file: ", &e))];
            assert(lines.deep_view() =~= seq![Said::Note("Failed to read key file: "@ + e@)]);
            ActivateStep::Done(lines)
        }
        KeyFile::Missing => {
            let lines = vec![note("Invalid key: not a JSON string or file path")];
            assert(lines.deep_view() =~= seq![
                Said::Note("Invalid key: not a JSON string or file path"@),
            ]);
            ActivateStep::Done(lines)
        }
    }
}

/// Goes on with the license of a key, if the key is valid.
pub fn key_validated(key_json: String, license: Option<License>) -> (r: ActivateStep)
    ensures
        r.deep_view() == after_validation(key_json@, license),
{
    match license {
        Some(l) => ActivateStep::FindHome(l, key_json),
        None => {
            let lines = vec![note("Invalid or expired license key.")];
            assert(lines.deep_view() =~= seq![Said::Note("Invalid or expired license key."@)]);
            ActivateStep::Done(lines)
        }
    }
}

/// Goes on with a valid key once it is known whether there is a home
/// directory.
pub fn home_found(license: License, key_json: String, found: bool) -> (r: ActivateStep)
    ensures
        r.deep_view() == after_home(license, key_json@, found),
{
    if found {
        ActivateStep::Save(license, key_json)
    } else {
        let lines = vec![note("Cannot find home directory")];
        assert(lines.deep_view() =~= seq![Said::Note("Cannot find home directory"@)]);
        ActivateStep::Done(lines)
    }
}

/// How far activation comes before anything is saved: each stage is answered
/// by what is found for it.
pub open spec fn activation(
    key_input: Seq<char>,
    file: KeyFile,
    license_of: spec_fn(Seq<char>) -> Option<License>,
    home: bool,
) -> Stage {
    let read = match begin(key_input) {
        Stage::ReadKey(_) => after_read(file),
        stage => stage,
    };
    let validated = match read {
        Stage::Validate(key) => after_validation(key, license_of(key)),
        stage => stage,
    };
    match validated {
        Stage::FindHome(license, key) => after_home(license, key, home),
        stage => stage,
    }
}

/// A key is saved exactly where it is the user's own, it is valid and there is
/// a home directory. In all other cases activation stops with one message.
pub proof fn law_only_valid_keys_are_saved(
    key_input: Seq<char>,
    file: KeyFile,
    license_of: spec_fn(Seq<char>) -> Option<License>,
    home: bool,
)
    ensures
        ({
            let given = if is_inline_key(key_input) {
                Some(key_input)
            } else {
                match file {
                    KeyFile::Content(content) => Some(content@),
                    _ => None,
                }
            };
            match activation(key_input, file, license_of, home) {
                Stage::Save(license, key) => given == Some(key) && license_of(key) == Some(license)
                    && home,
                Stage::Done(lines) => lines.len() == 1 && !(given matches Some(key) && license_of(
                    key,
                ) is Some && home),
                _ => false,
            }
        }),
{
}

/// What is said of a license that was saved at a path.
pub open spec fn activated(license: License, key_path: Seq<char>) -> Seq<Said> {
    seq![
        Said::Out("License activated!"@),
        Said::Out("  User:    "@ + license.user@),
        Said::Out("  Tier:    "@ + license.tier@),
        Said::Out("  Expires: "@ + license.expires@),
        Said::Out("  Saved:   "@ + key_path),
        Said::Out(""@),
        Said::Out("Restart sentrux to enable Pro features."@),
    ]
}

/// Ends activation: the key was saved at a path, or was not for some reason.
pub fn key_saved(license: &License, saved: Result<String, String>) -> (r: Vec<Line>)
    ensures
        r.deep_view() == match saved {
            Ok(key_path) => activated(*license, key_path@),
            Err(e) => seq![Said::Note("Failed to save license: "@ + e@)],
        },
{
    match saved {
        Ok(key_path) => {
            let lines = vec![
                out("License activated!"),
                Line::Out(cat("  User:    ", &license.user)),
                Line::Out(cat("  Tier:    ", &license.tier)),
                Line::Out(cat("  Expires: ", &license.expires)),
                Line::Out(cat("  Saved:   ", &key_path)),
                out(""),
                out("Restart sentrux to enable Pro features."),
            ];
            assert(lines.deep_view() =~= activated(*license, key_path@));
            lines
        }
        Err(e) => {
            let lines = vec![Line::Note(cat("Failed to save license: ", &e))];
            assert(lines.deep_view() =~= seq![Said::Note("Failed to save license: "@ + e@)]);
            lines
        }
    }
}

// ---------------------------------------------------------------------------
// Status, deactivation, update
// ---------------------------------------------------------------------------

/// What lies at the place of the saved license.
#[derive(Debug, PartialEq, Eq)]
pub enum SavedLicense {
    /// Nothing that can be read.
    NotFound,
    /// A key that is not valid.
    Invalid,
    /// A key of this license.
    Valid(License),
}

/// What the home directory tells of Pro.
#[derive(Debug, PartialEq, Eq)]
pub struct ProHome {
    /// The saved license.
    pub license: SavedLicense,
    /// Where the Pro plugin lies, if it is installed.
    pub plugin: Option<String>,
}

/// What is said of the saved license.
pub open spec fn license_status(license: SavedLicense) -> Seq<Said> {
    match license {
        SavedLicense::Valid(l) => seq![
            Said::Out("User:    "@ + l.user@),
            Said::Out("Expires: "@ + l.expires@),
            Said::Out("ID:      "@ + l.id@),
        ],
        SavedLicense::Invalid => seq![Said::Out("License: invalid or expired"@)],
        SavedLicense::NotFound => seq![Said::Out("License: not found"@)],
    }
}

/// What is said of the home directory.
pub open spec fn home_status(home: Option<ProHome>) -> Seq<Said> {
    match home {
        Some(h) => license_status(h.license).push(
            match h.plugin {
                Some(path) => Said::Out("Plugin:  "@ + path@ + " (installed)"@),
                None => Said::Out("Plugin:  not installed"@),
            },
        ),
        None => Seq::empty(),
    }
}

/// What is said of the plugin that is loaded.
pub open spec fn loaded_status(loaded: Option<(String, String)>) -> Seq<Said> {
    match loaded {
        Some(p) => seq![Said::Out("Loaded:  "@ + p.0@ + " v"@ + p.1@)],
        None => Seq::empty(),
    }
}

/// What is said of Pro: the tier, then what the home directory and the loaded
/// plugin tell, and last whether Pro is active.
pub open spec fn status(
    tier: Seq<char>,
    home: Option<ProHome>,
    loaded: Option<(String, String)>,
    active: bool,
) -> Seq<Said> {
    (seq![Said::Out("Tier: "@ + tier)] + home_status(home) + loaded_status(loaded)).push(
        if active {
            Said::Out("Status:  Pro features active"@)
        } else {
            Said::Out("Status:  Free"@)
        },
    )
}

/// Tells what the saved license says.
fn tell_license(license: &SavedLicense) -> (r: Vec<Line>)
    ensures
        r.deep_view() == license_status(*license),
{
    let lines = match license {
        SavedLicense::Valid(l) => vec![
            Line::Out(cat("User:    ", &l.user)),
            Line::Out(cat("Expires: ", &l.expires)),
            Line::Out(cat("ID:      ", &l.id)),
        ],
        SavedLicense::Invalid => vec![out("License: invalid or expired")],
        SavedLicense::NotFound => vec![out("License: not found")],
    };
    assert(lines.deep_view() =~= license_status(*license));
    lines
}

/// Tells the status of Pro.
pub fn pro_status(
    tier: &str,
    home: &Option<ProHome>,
    loaded: &Option<(String, String)>,
    active: bool,
) -> (r: Vec<Line>)
    ensures
        r.deep_view() == status(tier@, *home, *loaded, active),
{
    let mut lines = vec![Line::Out(cat("Tier: ", tier))];
    let ghost head = seq![Said::Out("Tier: "@ + tier@)];
    assert(lines.deep_view() =~= head);
    if let Some(h) = home {
        let mut more = tell_license(&h.license);
        let ghost told = more.deep_view();
        lines.append(&mut more);
        assert(lines.deep_view() =~= head + told);
        match &h.plugin {
            Some(path) => lines.push(Line::Out(cat3("Plugin:  ", path, " (installed)"))),
            None => lines.push(out("Plugin:  not installed")),
        }
    }
    assert(lines.deep_view() =~= head + home_status(*home));
    if let Some(p) = loaded {
        lines.push(Line::Out(cat4("Loaded:  ", &p.0, " v", &p.1)));
    }
    assert(lines.deep_view() =~= head + home_status(*home) + loaded_status(*loaded));
    if active {
        lines.push(out("Status:  Pro features active"));
    } else {
        lines.push(out("Status:  Free"));
    }
    assert(lines.deep_view() =~= status(tier@, *home, *loaded, active));
    lines
}

/// What deactivation says, by what there was to remove.
pub open spec fn deactivated(key_exists: bool, plugin_exists: bool) -> Seq<Said> {
    (if key_exists {
        seq![Said::Out("License removed."@)]
    } else {
        Seq::empty()
    }) + (if plugin_exists {
        seq![Said::Out("Pro plugin removed."@)]
    } else {
        Seq::empty()
    }) + seq![Said::Out("Deactivated. Restart sentrux to return to free mode."@)]
}

/// Tells what deactivation does in a home directory: the key and the plugin
/// are removed where they exist.
pub fn pro_deactivate(key_exists: bool, plugin_exists: bool) -> (r: Vec<Line>)
    ensures
        r.deep_view() == deactivated(key_exists, plugin_exists),
{
    let mut lines: Vec<Line> = Vec::new();
    if key_exists {
        lines.push(out("License removed."));
    }
    if plugin_exists {
        lines.push(out("Pro plugin removed."));
    }
    lines.push(out("Deactivated. Restart sentrux to return to free mode."));
    assert(lines.deep_view() =~= deactivated(key_exists, plugin_exists));
    lines
}

/// What an update of Pro says.
pub open spec fn update_notice() -> Seq<Said> {
    seq![
        Said::Out("Pro plugin update: not yet implemented."@),
        Said::Out("For now, download the latest pro.dylib from https://sentrux.dev/pro"@),
        Said::Out("and place it in ~/.sentrux/pro/"@),
    ]
}

/// Tells how Pro is updated.
pub fn pro_update() -> (r: Vec<Line>)
    ensures
        r.deep_view() == update_notice(),
{
    let lines = vec![
        out("Pro plugin update: not yet implemented."),
        out("For now, download the latest pro.dylib from https://sentrux.dev/pro"),
        out("and place it in ~/.sentrux/pro/"),
    ];
    assert(lines.deep_view() =~= update_notice());
    lines
}

// ---------------------------------------------------------------------------
// Laws
// ---------------------------------------------------------------------------

/// From the rank of Pro on the edition is named, and below it is not.
pub proof fn law_edition_goes_by_rank(tier: nat, pro: nat)
    ensures
        tier >= pro ==> edition(tier, pro) == "Pro"@,
        tier < pro ==> edition(tier, pro).len() == 0,
{
    reveal_strlit("");
}

/// The version is shown first, then a named edition in brackets, then the
/// version to upgrade to.
pub proof fn law_what_a_version_shows(
    version: Seq<char>,
    edition: Seq<char>,
    latest: Option<Seq<char>>,
)
    ensures
        edition.len() == 0 ==> shown_version(version, edition, None) == version,
        edition.len() > 0 ==> shown_version(version, edition, None) == version + seq![' ', '(']
            + edition + seq![')'],
        latest is Some ==> shown_version(version, edition, latest) == shown_version(
            version,
            edition,
            None,
        ) + "\n  Update available: v"@ + latest->Some_0 + " → brew upgrade sentrux"@,
{
    reveal_strlit(" (");
    reveal_strlit(")");
    assert(" ("@ =~= seq![' ', '(']);
    assert(")"@ =~= seq![')']);
}

/// The title of the window ends with the version, and names the edition where it
/// has a name.
pub proof fn law_what_a_title_shows(version: Seq<char>, edition: Seq<char>)
    ensures
        edition.len() == 0 ==> title(version, edition) == "sentrux v"@ + version,
        edition.len() > 0 ==> title(version, edition) == "Sentrux "@ + edition + " v"@ + version,
{
}

/// What the user gave is validated itself where it opens with a brace; otherwise
/// it is the path of a file.
pub proof fn law_keys_open_with_a_brace(rest: Seq<char>, path: Seq<char>)
    requires
        path.len() == 0 || path[0] != '{',
    ensures
        begin(seq!['{'] + rest) == Stage::Validate(seq!['{'] + rest),
        begin(path) == Stage::ReadKey(path),
        is_inline_key(seq!['{'] + rest),
        !is_inline_key(path),
{
    assert((seq!['{'] + rest)[0] == '{');
}

/// The content of a key file is validated as it is. A file that cannot be read,
/// or is not there, ends activation, and the reason is told.
pub proof fn law_key_files(content: String, error: String)
    ensures
        after_read(KeyFile::Content(content)) == Stage::Validate(content@),
        after_read(KeyFile::Unreadable(error)) == Stage::Done(
            seq![Said::Note("Failed to read key file: "@ + error@)],
        ),
        after_read(KeyFile::Missing) == Stage::Done(
            seq![Said::Note("Invalid key: not a JSON string or file path"@)],
        ),
{
}

/// A valid key goes on with its license, and is saved where there is a home
/// directory; anything else ends activation, and the reason is told.
pub proof fn law_valid_keys_go_on(key: Seq<char>, license: License)
    ensures
        after_validation(key, Some(license)) == Stage::FindHome(license, key),
        after_validation(key, None) == Stage::Done(
            seq![Said::Note("Invalid or expired license key."@)],
        ),
        after_home(license, key, true) == Stage::Save(license, key),
        after_home(license, key, false) == Stage::Done(
            seq![Said::Note("Cannot find home directory"@)],
        ),
{
}

/// What is told of a license that was saved: its user, its tier, when it ends
/// and where it lies.
pub proof fn law_saved_licenses_are_told(license: License, key_path: Seq<char>)
    ensures
        activated(license, key_path).contains(Said::Out("  User:    "@ + license.user@)),
        activated(license, key_path).contains(Said::Out("  Tier:    "@ + license.tier@)),
        activated(license, key_path).contains(Said::Out("  Expires: "@ + license.expires@)),
        activated(license, key_path).contains(Said::Out("  Saved:   "@ + key_path)),
        activated(license, key_path)[0] == Said::Out("License activated!"@),
        activated(license, key_path).len() == 7,
{
    let a = activated(license, key_path);
    assert(a[1] == Said::Out("  User:    "@ + license.user@));
    assert(a[2] == Said::Out("  Tier:    "@ + license.tier@));
    assert(a[3] == Said::Out("  Expires: "@ + license.expires@));
    assert(a[4] == Said::Out("  Saved:   "@ + key_path));
}

/// The status begins with the tier and ends with whether Pro is active. Between
/// them stands what the home directory tells, and then the loaded plugin.
pub proof fn law_what_a_status_tells(
    tier: Seq<char>,
    home: Option<ProHome>,
    loaded: Option<(String, String)>,
    active: bool,
)
    ensures
        ({
            let s = status(tier, home, loaded, active);
            let told = s.subrange(1, s.len() - 1);
            &&& s[0] == Said::Out("Tier: "@ + tier)
            &&& active ==> s.last() == Said::Out("Status:  Pro features active"@)
            &&& !active ==> s.last() == Said::Out("Status:  Free"@)
            &&& told == home_status(home) + loaded_status(loaded)
            &&& loaded is None ==> told == home_status(home)
            &&& loaded is Some ==> told.len() > 0 && told.last() == Said::Out(
                "Loaded:  "@ + loaded->Some_0.0@ + " v"@ + loaded->Some_0.1@,
            ) && told.drop_last() == home_status(home)
        }),
{
    let s = status(tier, home, loaded, active);
    let told = s.subrange(1, s.len() - 1);
    assert(told =~= home_status(home) + loaded_status(loaded));
    if loaded is None {
        assert(told =~= home_status(home));
    } else {
        assert(told.drop_last() =~= home_status(home));
    }
}

/// Of a home directory the saved license is told, and last whether the plugin is
/// installed. Without a home directory nothing is.
pub proof fn law_what_a_home_directory_tells(home: ProHome, license: License)
    ensures
        home_status(None).len() == 0,
        home_status(Some(home)).len() > 0,
        home.plugin is Some ==> home_status(Some(home)).last() == Said::Out(
            "Plugin:  "@ + home.plugin->Some_0@ + " (installed)"@,
        ),
        home.plugin is None ==> home_status(Some(home)).last() == Said::Out(
            "Plugin:  not installed"@,
        ),
        home_status(Some(home)).drop_last() == license_status(home.license),
        license_status(SavedLicense::Valid(license)).len() == 3,
        license_status(SavedLicense::Valid(license)).contains(
            Said::Out("User:    "@ + license.user@),
        ),
        license_status(SavedLicense::Valid(license)).contains(
            Said::Out("Expires: "@ + license.expires@),
        ),
        license_status(SavedLicense::Valid(license)).contains(Said::Out("ID:      "@ + license.id@)),
        license_status(SavedLicense::Invalid) == seq![Said::Out("License: invalid or expired"@)],
        license_status(SavedLicense::NotFound) == seq![Said::Out("License: not found"@)],
{
    let v = license_status(SavedLicense::Valid(license));
    assert(v[0] == Said::Out("User:    "@ + license.user@));
    assert(v[1] == Said::Out("Expires: "@ + license.expires@));
    assert(v[2] == Said::Out("ID:      "@ + license.id@));
    assert(home_status(Some(home)).drop_last() =~= license_status(home.license));
}

/// Deactivation tells of the key, and of the plugin, exactly where there was one
/// to remove, and always ends with the same line.
pub proof fn law_what_deactivation_tells(key_exists: bool, plugin_exists: bool)
    ensures
        ({
            let d = deactivated(key_exists, plugin_exists);
            let key = Said::Out("License removed."@);
            let plugin = Said::Out("Pro plugin removed."@);
            &&& d.last() == Said::Out("Deactivated. Restart sentrux to return to free mode."@)
            &&& key_exists && plugin_exists ==> d.drop_last() == seq![key, plugin]
            &&& key_exists && !plugin_exists ==> d.drop_last() == seq![key]
            &&& !key_exists && plugin_exists ==> d.drop_last() == seq![plugin]
            &&& !key_exists && !plugin_exists ==> d.len() == 1
        }),
{
    let d = deactivated(key_exists, plugin_exists);
    let key = Said::Out("License removed."@);
    let plugin = Said::Out("Pro plugin removed."@);
    if key_exists && plugin_exists {
        assert(d.drop_last() =~= seq![key, plugin]);
    } else if key_exists {
        assert(d.drop_last() =~= seq![key]);
    } else if plugin_exists {
        assert(d.drop_last() =~= seq![plugin]);
    }
}

} // verus!
