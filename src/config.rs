//! The configuration of a run, built from command-line tokens, and the
//! projection of one line under it.
use vstd::prelude::*;
use vstd::utf8::*;

use crate::project::{
    all_below, byte_tokens, char_tokens, cluster_tokens, field_line, grapheme_clusters,
    positions_fit, select_bytes, select_chars, select_clusters, select_fields, string_views,
};
use crate::selector::{positions_of_chars, selection};
use crate::text::{chars_from, chars_of, join, string_of};

verus! {

/// Where the lines come from.
pub enum InputSource {
    Stdin,
    File(String),
}

/// What an input source names: standard input, or the path of a file.
pub enum InputModel {
    Stdin,
    File(Seq<char>),
}

pub open spec fn input_view(i: Option<InputSource>) -> Option<InputModel> {
    match i {
        None => None,
        Some(InputSource::Stdin) => Some(InputModel::Stdin),
        Some(InputSource::File(p)) => Some(InputModel::File(p@)),
    }
}

/// The selection mode with its positions and the settings that belong to it.
pub enum Selection {
    /// Byte positions, counted from zero; with `no_split`, each selects the
    /// whole grapheme cluster that holds it.
    Bytes { positions: Vec<u64>, no_split: bool },
    /// Character positions, counted from zero.
    Characters { positions: Vec<u64> },
    /// Field positions, counted from one, in lines cut at `delimiter`.
    Fields { positions: Vec<u64>, delimiter: String, suppress: bool, whitespace: bool },
}

/// A run's configuration: one selection mode, the input, and whether usage
/// help was asked for.
pub struct CutConfig {
    pub selection: Selection,
    pub input: Option<InputSource>,
    pub help: bool,
}

/// The settings gathered from the command-line tokens read so far.
pub struct ArgModel {
    pub delimiter: Seq<char>,
    pub fields: Seq<u64>,
    pub bytes: Seq<u64>,
    pub chars: Seq<u64>,
    pub whitespace: bool,
    pub suppress: bool,
    pub no_split: bool,
    pub help: bool,
    pub input: Option<InputModel>,
}

/// The settings before any token is read: tab as the delimiter, no lists,
/// no flags, no input.
pub open spec fn initial_model() -> ArgModel {
    ArgModel {
        delimiter: seq!['\t'],
        fields: Seq::empty(),
        bytes: Seq::empty(),
        chars: Seq::empty(),
        whitespace: false,
        suppress: false,
        no_split: false,
        help: false,
        input: None,
    }
}

/// The letter of a flag token: the character after a leading `-`, when that
/// character is ASCII.
pub open spec fn flag_letter(t: Seq<char>) -> Option<char> {
    if t.len() >= 2 && t[0] == '-' && (t[1] as u32) < 128 {
        Some(t[1])
    } else {
        None
    }
}

/// How one token changes the settings. A token that does not start with `-`
/// names the input file; `-` alone, or `-` before a non-ASCII character,
/// selects standard input; `-f`, `-b` and `-c` carry a position list, `-d`
/// a delimiter; `-h`, `-n`, `-w` and `-s` set their flag; other flags are
/// ignored.
pub open spec fn arg_step(m: ArgModel, t: Seq<char>) -> ArgModel {
    if t.len() == 0 || t[0] != '-' {
        ArgModel { input: Some(InputModel::File(t)), ..m }
    } else {
        match flag_letter(t) {
            None => ArgModel { input: Some(InputModel::Stdin), ..m },
            Some(c) => if c == 'h' {
                ArgModel { help: true, ..m }
            } else if c == 'f' {
                ArgModel { fields: selection(t.skip(2)), ..m }
            } else if c == 'b' {
                ArgModel { bytes: selection(t.skip(2)), ..m }
            } else if c == 'c' {
                ArgModel { chars: selection(t.skip(2)), ..m }
            } else if c == 'd' {
                if m.whitespace && m.delimiter != seq!['\t'] {
                    ArgModel { delimiter: seq!['\t'], ..m }
                } else {
                    ArgModel { delimiter: t.skip(2), ..m }
                }
            } else if c == 'n' {
                ArgModel { no_split: true, ..m }
            } else if c == 'w' {
                ArgModel { whitespace: true, ..m }
            } else if c == 's' {
                ArgModel { suppress: true, ..m }
            } else {
                m
            },
        }
    }
}

/// The settings after reading `tokens` left to right.
pub open spec fn arg_model(tokens: Seq<Seq<char>>) -> ArgModel
    decreases tokens.len(),
{
    if tokens.len() == 0 {
        initial_model()
    } else {
        arg_step(arg_model(tokens.drop_last()), tokens.last())
    }
}

/// The command-line tokens after the program name.
pub open spec fn operands(args: Seq<Seq<char>>) -> Seq<Seq<char>> {
    if args.len() == 0 {
        args
    } else {
        args.drop_first()
    }
}

/// The selection written out for one line, or nothing.
pub open spec fn single(o: Option<Seq<char>>) -> Seq<Seq<char>> {
    match o {
        Some(s) => seq![s],
        None => Seq::empty(),
    }
}

/// Projecting the same line twice under the same configuration appends the
/// same output line twice: the result depends on the line and the
/// configuration alone.
pub proof fn lemma_process_repeatable(
    c: &CutConfig,
    line: Seq<char>,
    before: Seq<String>,
    once: Seq<String>,
    twice: Seq<String>,
)
    requires
        string_views(once) == string_views(before) + single(c.projection(line)),
        string_views(twice) == string_views(once) + single(c.projection(line)),
    ensures
        c.projection(line) matches Some(x) ==> string_views(twice) == string_views(before) + seq![x, x],
        c.projection(line) is None ==> string_views(twice) == string_views(before),
{
    match c.projection(line) {
        Some(x) => {
            assert(string_views(twice) =~= string_views(before) + seq![x, x]);
        },
        None => {
            assert(string_views(twice) =~= string_views(before));
        },
    }
}

/// In field mode with the tab as delimiter and suppression on, a line without
/// a tab gives no output line.
pub proof fn lemma_suppressed_without_tab(c: &CutConfig, line: Seq<char>)
    requires
        c.selection matches Selection::Fields { delimiter, suppress, .. } && suppress
            && delimiter@ == seq!['\t'],
        !line.contains('\t'),
    ensures
        c.projection(line) is None,
{
    if let Selection::Fields { delimiter, .. } = &c.selection {
        assert forall|i: int| !crate::text::occurs_at(line, delimiter@, i) by {
            if crate::text::occurs_at(line, delimiter@, i) {
                assert(line.subrange(i, i + 1)[0] == line[i]);
            }
        };
    }
}

/// The settings gathered while reading command-line tokens.
struct ArgScan {
    delimiter: Vec<char>,
    fields: Vec<u64>,
    bytes: Vec<u64>,
    chars: Vec<u64>,
    whitespace: bool,
    suppress: bool,
    no_split: bool,
    help: bool,
    input: Option<InputSource>,
}

impl ArgScan {
    spec fn model(&self) -> ArgModel {
        ArgModel {
            delimiter: self.delimiter@,
            fields: self.fields@,
            bytes: self.bytes@,
            chars: self.chars@,
            whitespace: self.whitespace,
            suppress: self.suppress,
            no_split: self.no_split,
            help: self.help,
            input: input_view(self.input),
        }
    }

    fn start() -> (r: ArgScan)
        ensures
            r.model() == initial_model(),
    {
        let mut delimiter: Vec<char> = Vec::new();
        delimiter.push('\t');
        let r = ArgScan {
            delimiter,
            fields: Vec::new(),
            bytes: Vec::new(),
            chars: Vec::new(),
            whitespace: false,
            suppress: false,
            no_split: false,
            help: false,
            input: None,
        };
        assert(r.model().delimiter =~= seq!['\t']);
        assert(r.model().fields =~= Seq::<u64>::empty());
        assert(r.model().bytes =~= Seq::<u64>::empty());
        assert(r.model().chars =~= Seq::<u64>::empty());
        r
    }

    /// Reads one token.
    fn step(&mut self, t: &Vec<char>)
        ensures
            final(self).model() == arg_step(old(self).model(), t@),
    {
        if t.len() == 0 || t[0] != '-' {
            self.input = Some(InputSource::File(string_of(t)));
            return;
        }
        if t.len() < 2 || (t[1] as u32) >= 128 {
            self.input = Some(InputSource::Stdin);
            return;
        }
        let c = t[1];
        if c == 'h' {
            self.help = true;
        } else if c == 'f' {
            self.fields = positions_of_chars(&chars_from(t, 2));
        } else if c == 'b' {
            self.bytes = positions_of_chars(&chars_from(t, 2));
        } else if c == 'c' {
            self.chars = positions_of_chars(&chars_from(t, 2));
        } else if c == 'd' {
            let is_tab = self.delimiter.len() == 1 && self.delimiter[0] == '\t';
            assert(is_tab <==> self.delimiter@ =~= seq!['\t']);
            if self.whitespace && !is_tab {
                let mut tab: Vec<char> = Vec::new();
                tab.push('\t');
                self.delimiter = tab;
                assert(self.delimiter@ =~= seq!['\t']);
            } else {
                self.delimiter = chars_from(t, 2);
            }
        } else if c == 'n' {
            self.no_split = true;
        } else if c == 'w' {
            self.whitespace = true;
        } else if c == 's' {
            self.suppress = true;
        }
    }

    /// The configuration that the gathered settings describe.
    fn finish(self) -> (r: CutConfig)
        ensures
            r.built_from(self.model()),
    {
        let selection = if self.bytes.len() > 0 {
            Selection::Bytes { positions: self.bytes, no_split: self.no_split }
        } else if self.chars.len() > 0 {
            Selection::Characters { positions: self.chars }
        } else {
            Selection::Fields {
                positions: self.fields,
                delimiter: string_of(&self.delimiter),
                suppress: self.suppress,
                whitespace: self.whitespace,
            }
        };
        CutConfig { selection, input: self.input, help: self.help }
    }
}

impl CutConfig {
    /// Builds the configuration from the command line `args`, whose first
    /// token is the program's name; see `arg_step` for what each later token
    /// does. Opening the input and answering `-h` are left to the caller.
    pub fn parse(args: Vec<String>) -> (r: CutConfig)
        ensures
            r.built_from(arg_model(operands(string_views(args@)))),
    {
        let ghost ops = operands(string_views(args@));
        let mut scan = ArgScan::start();
        let mut i: usize = 1;
        assert(ops.take(0) =~= Seq::<Seq<char>>::empty());
        while i < args.len()
            invariant
                1 <= i,
                i <= args@.len() || args@.len() == 0,
                args@.len() == 0 ==> i == 1,
                ops == operands(string_views(args@)),
                scan.model() == arg_model(ops.take(i - 1)),
            decreases args@.len() - i,
        {
            let t = chars_of(args[i].as_str());
            assert(t@ == ops[i - 1]);
            scan.step(&t);
            assert(ops.take(i as int).drop_last() =~= ops.take(i - 1));
            i = i + 1;
        }
        proof {
            if args@.len() == 0 {
                assert(ops.len() == 0);
            } else {
                assert(i == args@.len());
                assert(ops.len() == args@.len() - 1);
            }
            assert(ops.take(i - 1) =~= ops);
        }
        scan.finish()
    }

    /// This configuration is the one that the settings `m` describe: byte
    /// mode where a byte list was given, else character mode where a
    /// character list was given, else field mode.
    pub open spec fn built_from(&self, m: ArgModel) -> bool {
        &&& self.help == m.help
        &&& input_view(self.input) == m.input
        &&& match self.selection {
            Selection::Bytes { positions, no_split } => {
                &&& m.bytes.len() > 0
                &&& positions@ == m.bytes
                &&& no_split == m.no_split
            },
            Selection::Characters { positions } => {
                &&& m.bytes.len() == 0
                &&& m.chars.len() > 0
                &&& positions@ == m.chars
            },
            Selection::Fields { positions, delimiter, suppress, whitespace } => {
                &&& m.bytes.len() == 0
                &&& m.chars.len() == 0
                &&& positions@ == m.fields
                &&& delimiter@ == m.delimiter
                &&& suppress == m.suppress
                &&& whitespace == m.whitespace
            },
        }
    }

    /// The output line for `line`, or `None` where the line is dropped.
    pub open spec fn projection(&self, line: Seq<char>) -> Option<Seq<char>> {
        match self.selection {
            Selection::Bytes { positions, no_split } => if no_split {
                Some(join(cluster_tokens(grapheme_clusters(line), positions@), ' '))
            } else {
                Some(join(byte_tokens(encode_utf8(line), positions@), ' '))
            },
            Selection::Characters { positions } => Some(join(char_tokens(line, positions@), '\t')),
            Selection::Fields { positions, delimiter, suppress, whitespace } => field_line(
                line,
                delimiter@,
                suppress,
                positions@,
            ),
        }
    }

    /// The line can be projected: in raw byte mode every position must lie
    /// within the line's UTF-8 encoding.
    pub open spec fn fits(&self, line: Seq<char>) -> bool {
        match self.selection {
            Selection::Bytes { positions, no_split } => no_split || all_below(
                positions@,
                encode_utf8(line).len(),
            ),
            _ => true,
        }
    }

    /// The default configuration: field mode with no positions, tab as the
    /// delimiter, no flags and no input.
    pub fn new() -> (r: CutConfig)
        ensures
            r.built_from(initial_model()),
    {
        let mut delimiter = String::new();
        crate::text::push_char(&mut delimiter, '\t');
        CutConfig {
            selection: Selection::Fields {
                positions: Vec::new(),
                delimiter,
                suppress: false,
                whitespace: false,
            },
            input: None,
            help: false,
        }
    }

    /// Whether `line` can be projected under this configuration.
    pub fn accepts(&self, line: &String) -> (r: bool)
        ensures
            r == self.fits(line@),
    {
        match &self.selection {
            Selection::Bytes { positions, no_split } => *no_split || positions_fit(
                line.as_str(),
                positions,
            ),
            _ => true,
        }
    }

    /// Projects `line` and appends the result to `output`; a dropped line
    /// appends nothing.
    pub fn process(&self, line: &String, output: &mut Vec<String>)
        requires
            self.fits(line@),
        ensures
            string_views(final(output)@) == string_views(old(output)@) + single(
                self.projection(line@),
            ),
    {
        let ghost before = string_views(output@);
        let text = line.as_str();
        let produced: Option<String> = match &self.selection {
            Selection::Bytes { positions, no_split } => if *no_split {
                Some(select_clusters(text, positions))
            } else {
                Some(select_bytes(text, positions))
            },
            Selection::Characters { positions } => Some(select_chars(text, positions)),
            Selection::Fields { positions, delimiter, suppress, whitespace } => select_fields(
                text,
                delimiter.as_str(),
                *suppress,
                positions,
            ),
        };
        match produced {
            Some(s) => {
                let ghost sv = s@;
                output.push(s);
                assert(string_views(output@) =~= before + seq![sv]);
            },
            None => {
                assert(string_views(output@) =~= before + Seq::<Seq<char>>::empty());
            },
        }
    }
}

} // verus!
