//! The studio's templates and its report on the state of an installation.

use vstd::prelude::*;

verus! {

/// `text` with every match of `from` replaced by `to`, as `str::replace`
/// gives it.
pub uninterp spec fn replaced(text: Seq<char>, from: Seq<char>, to: Seq<char>) -> Seq<char>;

/// Replaces every match of `from` in `text` by `to` with `str::replace`. The
/// result is taken on trust to be a function of the three strings alone.
#[verifier::external_body]
fn replace_all(text: &str, from: &str, to: &str) -> (out: String)
    ensures
        out@ == replaced(text@, from@, to@),
{
    text.replace(from, to)
}

/// Joins three strings with `format!`. It is taken on trust that the result
/// holds the three one after another and nothing else.
#[verifier::external_body]
fn join3(a: &str, b: &str, c: &str) -> (out: String)
    ensures
        out@ == a@ + b@ + c@,
{
    format!("{}{}{}", a, b, c)
}

/// The decimal digits of `n` as characters.
pub open spec fn decimal_text(n: nat) -> Seq<char> {
    crate::naming::digits(n).map_values(|d: u8| d as char)
}

/// Writes `n` in decimal with `usize::to_string`. It is taken on trust that
/// the result holds the decimal digits of `n`, without sign or padding.
#[verifier::external_body]
fn number_text(n: usize) -> (out: String)
    ensures
        out@ == decimal_text(n as nat),
{
    n.to_string()
}

/// The text that stands for a template that is not registered.
pub open spec fn missing(name: Seq<char>) -> Seq<char> {
    "Template "@ + name + " not found"@
}

/// The placeholder of a key: the key between `[[ ` and ` ]]`.
pub open spec fn placeholder(key: Seq<char>) -> Seq<char> {
    "[[ "@ + key + " ]]"@
}

/// The strings held by a vector of pairs.
pub open spec fn texts(pairs: Seq<(String, String)>) -> Seq<(Seq<char>, Seq<char>)> {
    pairs.map_values(|p: (String, String)| (p.0@, p.1@))
}

/// The templates by name: a later registration replaces an earlier one.
pub open spec fn registry(pairs: Seq<(Seq<char>, Seq<char>)>) -> Map<Seq<char>, Seq<char>>
    decreases pairs.len(),
{
    if pairs.len() == 0 {
        Map::empty()
    } else {
        registry(pairs.drop_last()).insert(pairs.last().0, pairs.last().1)
    }
}

/// `content` after the placeholder of each key is replaced by the key's
/// value, one key after another in the order given.
pub open spec fn filled(content: Seq<char>, data: Seq<(Seq<char>, Seq<char>)>) -> Seq<char>
    decreases data.len(),
{
    if data.len() == 0 {
        content
    } else {
        replaced(filled(content, data.drop_last()), placeholder(data.last().0), data.last().1)
    }
}

/// Holds templates by name and fills them in.
#[derive(Debug)]
pub struct StudioEngine {
    templates: Vec<(String, String)>,
}

impl View for StudioEngine {
    type V = Map<Seq<char>, Seq<char>>;

    /// The templates by name.
    closed spec fn view(&self) -> Map<Seq<char>, Seq<char>> {
        registry(texts(self.templates@))
    }
}

impl StudioEngine {
    /// An engine without templates.
    pub fn new() -> (engine: Self)
        ensures
            engine@ == Map::<Seq<char>, Seq<char>>::empty(),
    {
        let engine = StudioEngine { templates: Vec::new() };
        assert(texts(engine.templates@) =~= Seq::<(Seq<char>, Seq<char>)>::empty());
        engine
    }

    /// Registers a template under `name`, in place of any that had the name.
    pub fn register(&mut self, name: &str, content: &str)
        ensures
            final(self)@ == old(self)@.insert(name@, content@),
    {
        let ghost before = texts(self.templates@);
        self.templates.push((name.to_owned(), content.to_owned()));
        proof {
            assert(texts(self.templates@) =~= before.push((name@, content@)));
            assert(before.push((name@, content@)).drop_last() =~= before);
        }
    }

    /// The content registered under `name`.
    fn find(&self, name: &str) -> (content: Option<&String>)
        ensures
            match content {
                Some(c) => self@.contains_key(name@) && c@ == self@[name@],
                None => !self@.contains_key(name@),
            },
    {
        let wanted = name.to_owned();
        let ghost pairs = texts(self.templates@);
        let mut i: usize = self.templates.len();
        proof {
            assert(pairs.take(i as int) =~= pairs);
        }
        while i > 0
            invariant
                i <= self.templates.len(),
                pairs == texts(self.templates@),
                wanted@ == name@,
                registry(pairs).contains_key(name@) == registry(pairs.take(i as int)).contains_key(
                    name@,
                ),
                registry(pairs).contains_key(name@) ==> registry(pairs)[name@] == registry(
                    pairs.take(i as int),
                )[name@],
            decreases i,
        {
            i -= 1;
            proof {
                assert(pairs.take(i + 1).drop_last() =~= pairs.take(i as int));
                assert(pairs.take(i + 1).last() == pairs[i as int]);
                assert(pairs[i as int].0 == self.templates@[i as int].0@);
            }
            if self.templates[i].0 == wanted {
                return Some(&self.templates[i].1);
            }
        }
        None
    }

    /// Fills in the template registered under `template_name`: for each key
    /// of `data`, in the order given, every `[[ key ]]` is replaced by the
    /// key's value. A name without a template gives a text that says so,
    /// filled in like a template.
    pub fn render(&self, template_name: &str, data: &Vec<(String, String)>) -> (out: String)
        ensures
            out@ == filled(
                if self@.contains_key(template_name@) {
                    self@[template_name@]
                } else {
                    missing(template_name@)
                },
                texts(data@),
            ),
    {
        let mut content = match self.find(template_name) {
            Some(c) => c.clone(),
            None => join3("Template ", template_name, " not found"),
        };
        let ghost start = content@;
        let ghost pairs = texts(data@);
        let mut i: usize = 0;
        proof {
            assert(pairs.take(0) =~= Seq::<(Seq<char>, Seq<char>)>::empty());
        }
        while i < data.len()
            invariant
                i <= data.len(),
                pairs == texts(data@),
                content@ == filled(start, pairs.take(i as int)),
            decreases data.len() - i,
        {
            proof {
                assert(pairs.take(i + 1).drop_last() =~= pairs.take(i as int));
                assert(pairs.take(i + 1).last() == (data@[i as int].0@, data@[i as int].1@));
            }
            let mark = join3("[[ ", data[i].0.as_str(), " ]]");
            content = replace_all(content.as_str(), mark.as_str(), data[i].1.as_str());
            i += 1;
        }
        proof {
            assert(pairs.take(i as int) =~= pairs);
        }
        content
    }
}

/// What was found of an installation.
#[derive(Debug, Clone, Copy)]
pub struct SystemFindings {
    /// The configuration file is there.
    pub config_exists: bool,
    /// The configuration file could be read.
    pub config_readable: bool,
    /// The configuration names a bind address.
    pub has_bind_address: bool,
    /// The configuration does not mention backups, or switches them off.
    pub backup_disabled: bool,
    /// The number of sorted runs over all databases.
    pub sstable_count: usize,
    /// The directory of the further databases is there.
    pub database_dir_exists: bool,
}

/// What the studio reports of an installation: the issues found, and a score
/// from which each issue takes points.
#[derive(Debug)]
pub struct AnalysisReport {
    pub issues: Vec<String>,
    pub score: u8,
}

/// The most sorted runs that pass without remark.
pub const SSTABLE_LIMIT: usize = 50;

/// The configuration file is missing.
pub open spec fn lacks_config(f: SystemFindings) -> bool {
    !f.config_exists
}

/// The configuration was read and names no bind address.
pub open spec fn lacks_bind_address(f: SystemFindings) -> bool {
    f.config_exists && f.config_readable && !f.has_bind_address
}

/// The configuration was read and leaves backups off.
pub open spec fn lacks_backup(f: SystemFindings) -> bool {
    f.config_exists && f.config_readable && f.backup_disabled
}

/// The points that the findings take from the score of 100.
pub open spec fn deductions(f: SystemFindings) -> int {
    (if lacks_config(f) {
        50int
    } else {
        0int
    }) + (if lacks_bind_address(f) {
        10int
    } else {
        0int
    }) + (if lacks_backup(f) {
        20int
    } else {
        0int
    }) + (if f.sstable_count > SSTABLE_LIMIT {
        15int
    } else {
        0int
    }) + (if !f.database_dir_exists {
        10int
    } else {
        0int
    })
}

/// The issues that the findings raise, in the order in which they are
/// looked for.
pub open spec fn issues_of(f: SystemFindings) -> Seq<Seq<char>> {
    (if lacks_config(f) {
        seq!["Configuration file (velocity.toml) is missing!"@]
    } else {
        Seq::empty()
    }) + (if lacks_bind_address(f) {
        seq!["Security: No bind_address defined, using default."@]
    } else {
        Seq::empty()
    }) + (if lacks_backup(f) {
        seq!["Risk: Automatic backup system is disabled."@]
    } else {
        Seq::empty()
    }) + (if f.sstable_count > SSTABLE_LIMIT {
        seq![
            "Performance: High SSTable count ("@ + decimal_text(f.sstable_count as nat)
                + "), compaction might be lagging."@,
        ]
    } else {
        Seq::empty()
    }) + (if !f.database_dir_exists {
        seq!["Path Error: External database directory does not exist."@]
    } else {
        Seq::empty()
    })
}

/// The texts held by a vector of strings.
pub open spec fn lines(issues: Seq<String>) -> Seq<Seq<char>> {
    issues.map_values(|s: String| s@)
}

/// Scores an installation.
pub fn assess(findings: &SystemFindings) -> (report: AnalysisReport)
    ensures
        report.score == 100 - deductions(*findings),
        lines(report.issues@) == issues_of(*findings),
{
    let mut issues: Vec<String> = Vec::new();
    let mut score: u8 = 100;
    let ghost f = *findings;
    proof {
        assert(lines(issues@) =~= Seq::<Seq<char>>::empty());
    }
    if !findings.config_exists {
        let ghost before = lines(issues@);
        issues.push("Configuration file (velocity.toml) is missing!".to_owned());
        score = score - 50;
        assert(lines(issues@) =~= before.push("Configuration file (velocity.toml) is missing!"@));
    } else if findings.config_readable {
        if !findings.has_bind_address {
            let ghost before = lines(issues@);
            issues.push("Security: No bind_address defined, using default.".to_owned());
            score = score - 10;
            assert(lines(issues@) =~= before.push(
                "Security: No bind_address defined, using default."@,
            ));
        }
        if findings.backup_disabled {
            let ghost before = lines(issues@);
            issues.push("Risk: Automatic backup system is disabled.".to_owned());
            score = score - 20;
            assert(lines(issues@) =~= before.push("Risk: Automatic backup system is disabled."@));
        }
    }
    let ghost first = lines(issues@);
    assert(first =~= (if lacks_config(f) {
        seq!["Configuration file (velocity.toml) is missing!"@]
    } else {
        Seq::empty()
    }) + (if lacks_bind_address(f) {
        seq!["Security: No bind_address defined, using default."@]
    } else {
        Seq::empty()
    }) + (if lacks_backup(f) {
        seq!["Risk: Automatic backup system is disabled."@]
    } else {
        Seq::empty()
    }));
    if findings.sstable_count > SSTABLE_LIMIT {
        let ghost before = lines(issues@);
        let count = number_text(findings.sstable_count);
        let text = join3(
            "Performance: High SSTable count (",
            count.as_str(),
            "), compaction might be lagging.",
        );
        issues.push(text);
        score = score - 15;
        assert(lines(issues@) =~= before.push(
            "Performance: High SSTable count ("@ + decimal_text(f.sstable_count as nat)
                + "), compaction might be lagging."@,
        ));
    }
    if !findings.database_dir_exists {
        let ghost before = lines(issues@);
        issues.push("Path Error: External database directory does not exist.".to_owned());
        score = score - 10;
        assert(lines(issues@) =~= before.push(
            "Path Error: External database directory does not exist."@,
        ));
    }
    assert(lines(issues@) =~= issues_of(f));
    AnalysisReport { issues, score }
}

} // verus!
