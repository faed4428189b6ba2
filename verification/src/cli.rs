//! The command line as plain values, and what a run is to do for it.
use crate::formatting::name_views;
use crate::index::bucket_width;
use crate::index::get_bucket_width;
use vstd::prelude::*;

verus! {

/// The similarity threshold, in percent, where none is given.
pub const DEFAULT_THRESHOLD: u8 = 90;

/// The number of hash digits in a bucket key.
pub const N_PROJECTIONS: usize = 5;

/// The number of tables of the approximate index.
pub const N_HASH_TABLES: usize = 20;

/// The number of components of a signature.
pub const DIMENSION: usize = 625;

/// The seed from which the hash family is drawn.
pub const SEED: u64 = 4001;

/// The options of the command line.
#[derive(Debug)]
pub struct Cli {
    /// Compare images by shrinking them to identical sizes and comparing the
    /// pixel values, instead of signatures.
    pub pixels: bool,
    /// The amount of similarity as a percentage to be considered similar.
    pub threshold: Option<u8>,
    /// The program to launch when the comparisons are finished.
    /// The program will be launched for each pair or grouping, one after
    /// another.
    pub exec_command: Option<String>,
    /// If set, will only present the matched images in pairs rather than
    /// groups.
    pub pairs: bool,
    /// If set, signatures are neither read from the cache nor written to it.
    pub no_database: bool,
    /// The width to resize the images to before comparing in pixel mode.
    pub width: u32,
    /// The height to resize the images to before comparing in pixel mode.
    pub height: u32,
    /// The files to compare. If one of these is a dash '-' the program will
    /// also read filenames from stdin.
    pub files: Vec<String>,
}

impl Default for Cli {
    fn default() -> (cli: Cli)
        ensures
            !cli.pixels,
            cli.threshold is None,
            cli.exec_command is None,
            !cli.pairs,
            !cli.no_database,
            cli.width == 160,
            cli.height == 160,
            cli.files@.len() == 0,
    {
        Cli {
            pixels: false,
            threshold: None,
            exec_command: None,
            pairs: false,
            no_database: false,
            width: 160,
            height: 160,
            files: Vec::new(),
        }
    }
}

/// Why a run cannot start.
#[derive(Debug, Clone, Copy, PartialEq, Eq, Structural)]
pub enum RunError {
    /// The command line names no file and does not ask for standard input.
    NoFiles,
}

impl RunError {
    /// What is reported to the user.
    pub fn message(&self) -> (text: String)
        ensures
            text@ == "No files provided"@,
    {
        match self {
            RunError::NoFiles => "No files provided".to_owned(),
        }
    }

    /// The status with which the process ends.
    pub fn exit_status(&self) -> (status: i32)
        ensures
            status == 1,
    {
        1
    }
}

/// A program to run on matched paths, with the arguments that come before
/// the paths.
#[derive(Debug)]
pub struct Executable {
    pub program: String,
    pub arguments: Vec<String>,
}

/// The pieces of `text` between its spaces.  There is one piece more than
/// there are spaces; a piece is empty where two spaces meet and where the
/// text begins or ends with one.
pub open spec fn split_at_spaces(text: Seq<char>) -> Seq<Seq<char>>
    decreases text.len(),
{
    if text.len() == 0 {
        seq![Seq::empty()]
    } else {
        let before = split_at_spaces(text.drop_last());
        if text.last() == ' ' {
            before.push(Seq::empty())
        } else {
            before.drop_last().push(before.last().push(text.last()))
        }
    }
}

/// There is always a first piece.
pub proof fn lemma_split_has_pieces(text: Seq<char>)
    ensures
        split_at_spaces(text).len() >= 1,
    decreases text.len(),
{
    if text.len() > 0 {
        lemma_split_has_pieces(text.drop_last());
    }
}

/// Splits `text` at its spaces.
pub fn split_words(text: &str) -> (words: Vec<String>)
    ensures
        name_views(words@) == split_at_spaces(text@),
        words@.len() >= 1,
{
    let length = text.unicode_len();
    let mut words: Vec<String> = Vec::new();
    let mut start: usize = 0;
    let mut i: usize = 0;
    proof {
        assert(text@.take(0) =~= Seq::<char>::empty());
        assert(text@.subrange(0, 0) =~= Seq::<char>::empty());
        assert(name_views(words@).push(text@.subrange(0, 0)) =~= seq![Seq::<char>::empty()]);
    }
    while i < length
        invariant
            0 <= start <= i <= length,
            length == text@.len(),
            split_at_spaces(text@.take(i as int)) == name_views(words@).push(
                text@.subrange(start as int, i as int),
            ),
        decreases length - i,
    {
        proof {
            assert(text@.take(i + 1).drop_last() =~= text@.take(i as int));
            assert(text@.take(i + 1).last() == text@[i as int]);
        }
        let ghost done = name_views(words@);
        let ghost piece = text@.subrange(start as int, i as int);
        if text.get_char(i) == ' ' {
            words.push(text.substring_char(start, i).to_owned());
            start = i + 1;
            proof {
                assert(name_views(words@) =~= done.push(piece));
                assert(text@.subrange(start as int, i + 1) =~= Seq::<char>::empty());
            }
        } else {
            proof {
                assert(done.push(piece).drop_last() =~= done);
                assert(piece.push(text@[i as int]) =~= text@.subrange(start as int, i + 1));
            }
        }
        i += 1;
    }
    proof {
        assert(text@.take(length as int) =~= text@);
    }
    let ghost done = name_views(words@);
    words.push(text.substring_char(start, length).to_owned());
    proof {
        assert(name_views(words@) =~= done.push(text@.subrange(start as int, length as int)));
    }
    words
}

/// Reads the program to run and its arguments out of one option: the first
/// piece is the program, the pieces after it are its arguments.
pub fn parse_exec(command: &str) -> (executable: Executable)
    ensures
        executable.program@ == split_at_spaces(command@)[0],
        name_views(executable.arguments@) == split_at_spaces(command@).skip(1),
{
    let mut words = split_words(command);
    let ghost all = words@;
    let program = words.remove(0);
    proof {
        assert(name_views(all)[0] == all[0]@);
        assert(name_views(words@) =~= name_views(all).skip(1));
    }
    Executable { program, arguments: words }
}

/// `name` is the dash that stands for standard input.
pub open spec fn is_dash(name: Seq<char>) -> bool {
    name == seq!['-']
}

/// The files that are named on the command line: all but the dashes, in
/// their order.
pub open spec fn named_files(files: Seq<String>) -> Seq<String>
    decreases files.len(),
{
    if files.len() == 0 {
        Seq::empty()
    } else {
        let before = named_files(files.drop_last());
        if is_dash(files.last()@) {
            before
        } else {
            before.push(files.last())
        }
    }
}

/// Some argument is a dash: more paths are to be read from standard input.
pub open spec fn has_dash(files: Seq<String>) -> bool {
    exists|i: int| 0 <= i < files.len() && is_dash(#[trigger] files[i]@)
}

/// The arguments of the command line that name files, and whether paths are
/// also to be read from standard input.
pub struct Inputs {
    pub filenames: Vec<String>,
    pub dash_mode: bool,
}

/// Parts the arguments into the files they name and the request for
/// standard input.
pub fn read_arguments(files: &Vec<String>) -> (inputs: Inputs)
    ensures
        inputs.filenames@ == named_files(files@),
        inputs.dash_mode == has_dash(files@),
{
    let mut filenames: Vec<String> = Vec::new();
    let mut dash_mode = false;
    let mut i: usize = 0;
    proof {
        reveal_strlit("-");
        assert("-"@ =~= seq!['-']);
        assert(files@.take(0) =~= Seq::<String>::empty());
    }
    let dash = "-".to_owned();
    while i < files.len()
        invariant
            0 <= i <= files@.len(),
            dash@ == seq!['-'],
            filenames@ == named_files(files@.take(i as int)),
            dash_mode == has_dash(files@.take(i as int)),
        decreases files@.len() - i,
    {
        proof {
            assert(files@.take(i + 1).drop_last() =~= files@.take(i as int));
            assert(files@.take(i + 1).last() == files@[i as int]);
        }
        let ghost seen = has_dash(files@.take(i as int));
        if files[i] == dash {
            dash_mode = true;
            proof {
                assert(is_dash(files@.take(i + 1)[i as int]@));
            }
        } else {
            filenames.push(files[i].clone());
            proof {
                if has_dash(files@.take(i + 1)) {
                    let k = choose|k: int|
                        0 <= k < files@.take(i + 1).len() && is_dash(#[trigger] files@.take(i + 1)[k]@);
                    assert(is_dash(files@.take(i as int)[k]@));
                }
                if seen {
                    let k = choose|k: int|
                        0 <= k < files@.take(i as int).len() && is_dash(
                            #[trigger] files@.take(i as int)[k]@,
                        );
                    assert(is_dash(files@.take(i + 1)[k]@));
                }
            }
        }
        i += 1;
    }
    proof {
        assert(files@.take(files@.len() as int) =~= files@);
    }
    Inputs { filenames, dash_mode }
}

/// The threshold in percent that a command line asks for.
pub open spec fn threshold_of(cli: Cli) -> u8 {
    match cli.threshold {
        Some(threshold) => threshold,
        None => DEFAULT_THRESHOLD,
    }
}

/// What the command line asks of the program to run: nothing where no
/// option is given.
pub open spec fn executable_matches(cli: Cli, executable: Option<Executable>) -> bool {
    match cli.exec_command {
        Some(command) => executable matches Some(found) && found.program@ == split_at_spaces(
            command@,
        )[0] && name_views(found.arguments@) == split_at_spaces(command@).skip(1),
        None => executable is None,
    }
}

fn read_executable(cli: &Cli) -> (executable: Option<Executable>)
    ensures
        executable_matches(*cli, executable),
{
    match &cli.exec_command {
        Some(command) => Some(parse_exec(command.as_str())),
        None => None,
    }
}

fn read_threshold(cli: &Cli) -> (threshold: u8)
    ensures
        threshold == threshold_of(*cli),
{
    match cli.threshold {
        Some(threshold) => threshold,
        None => DEFAULT_THRESHOLD,
    }
}

/// What a run that compares signatures is to do.
#[derive(Debug)]
pub struct SignatureRun {
    /// Whether signatures are read from the cache and written to it.
    pub use_database: bool,
    /// The similarity, in percent, that a pair must exceed.
    pub threshold: u8,
    /// The width of the buckets of the hash family.
    pub bucket_width: u32,
    /// The number of hash digits in a bucket key.
    pub n_projections: usize,
    /// The number of tables of the approximate index.
    pub n_hash_tables: usize,
    /// The number of components of a signature.
    pub dim: usize,
    /// The seed from which the hash family is drawn.
    pub seed: u64,
    /// The files named on the command line.
    pub filenames: Vec<String>,
    /// Whether more paths are read from standard input.
    pub dash_mode: bool,
    /// Whether matches are written as pairs, as soon as they are found, and
    /// not as groups at the end.
    pub pairs: bool,
    /// The program to run on each pair or group.
    pub executable: Option<Executable>,
}

/// What a run that compares pixels is to do.
#[derive(Debug)]
pub struct PixelRun {
    /// The similarity, in percent, that a pair must exceed.
    pub threshold: u8,
    /// The width that the images are resized to.
    pub width: u32,
    /// The height that the images are resized to.
    pub height: u32,
    /// The files named on the command line.
    pub filenames: Vec<String>,
    /// Whether more paths are read from standard input.
    pub dash_mode: bool,
    /// Whether matches are written as pairs, as soon as they are found, and
    /// not as groups at the end.
    pub pairs: bool,
    /// The program to run on each pair or group.
    pub executable: Option<Executable>,
}

/// Plans a run that compares signatures.
///
/// A command line without arguments for files is refused.
pub fn main_signatures(cli: &Cli) -> (result: Result<SignatureRun, RunError>)
    ensures
        result is Err <==> cli.files@.len() == 0,
        result matches Err(error) ==> error == RunError::NoFiles,
        result matches Ok(run) ==> {
            &&& run.use_database == !cli.no_database
            &&& run.threshold == threshold_of(*cli)
            &&& run.bucket_width == bucket_width(threshold_of(*cli) as int)
            &&& run.n_projections == N_PROJECTIONS
            &&& run.n_hash_tables == N_HASH_TABLES
            &&& run.dim == DIMENSION
            &&& run.seed == SEED
            &&& run.filenames@ == named_files(cli.files@)
            &&& run.dash_mode == has_dash(cli.files@)
            &&& run.pairs == cli.pairs
            &&& executable_matches(*cli, run.executable)
        },
{
    if cli.files.len() == 0 {
        return Err(RunError::NoFiles);
    }
    let threshold = read_threshold(cli);
    let inputs = read_arguments(&cli.files);
    Ok(
        SignatureRun {
            use_database: !cli.no_database,
            threshold,
            bucket_width: get_bucket_width(threshold),
            n_projections: N_PROJECTIONS,
            n_hash_tables: N_HASH_TABLES,
            dim: DIMENSION,
            seed: SEED,
            filenames: inputs.filenames,
            dash_mode: inputs.dash_mode,
            pairs: cli.pairs,
            executable: read_executable(cli),
        },
    )
}

/// Plans a run that compares pixels.
///
/// A command line without arguments for files is refused.
pub fn main_pixel(cli: &Cli) -> (result: Result<PixelRun, RunError>)
    ensures
        result is Err <==> cli.files@.len() == 0,
        result matches Err(error) ==> error == RunError::NoFiles,
        result matches Ok(run) ==> {
            &&& run.threshold == threshold_of(*cli)
            &&& run.width == cli.width
            &&& run.height == cli.height
            &&& run.filenames@ == named_files(cli.files@)
            &&& run.dash_mode == has_dash(cli.files@)
            &&& run.pairs == cli.pairs
            &&& executable_matches(*cli, run.executable)
        },
{
    if cli.files.len() == 0 {
        return Err(RunError::NoFiles);
    }
    let inputs = read_arguments(&cli.files);
    Ok(
        PixelRun {
            threshold: read_threshold(cli),
            width: cli.width,
            height: cli.height,
            filenames: inputs.filenames,
            dash_mode: inputs.dash_mode,
            pairs: cli.pairs,
            executable: read_executable(cli),
        },
    )
}

} // verus!
