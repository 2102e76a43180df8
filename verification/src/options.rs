//! The options of the command line.
//!
//! The arguments are read from left to right. The argument that follows the
//! flag `--input-dir` is the input directory; where the flag comes several
//! times, the last one that has an argument after it counts.

use vstd::prelude::*;

verus! {

/// The flag that stands before the input directory.
pub open spec fn input_dir_flag() -> Seq<char> {
    "--input-dir"@
}

/// One option of the command line: whether its flag was the last argument
/// read, and the value that followed the flag, if any did.
#[derive(Debug)]
pub struct CommandLineOption<T> {
    pub parsed: bool,
    pub value: Option<T>,
}

impl<T> CommandLineOption<T> {
    /// Takes `value` as the option's value and clears the mark that the flag
    /// left.
    pub fn store(self, value: T) -> (stored: Self)
        ensures
            !stored.parsed,
            stored.value == Some(value),
    {
        Self { parsed: false, value: Some(value) }
    }
}

impl<T> Default for CommandLineOption<T> {
    fn default() -> (option: Self)
        ensures
            !option.parsed,
            option.value is None,
    {
        CommandLineOption { parsed: false, value: None }
    }
}

/// The options as far as the arguments have been read: whether the flag was
/// the last argument read, and the input directory, if one was named.
pub struct OptionsModel {
    pub flagged: bool,
    pub input_dir: Option<Seq<char>>,
}

impl OptionsModel {
    /// The options before any argument.
    pub open spec fn initial() -> OptionsModel {
        OptionsModel { flagged: false, input_dir: None }
    }

    /// The options after one more argument: it is the input directory where
    /// the flag stood before it, and it is looked at as a flag in any case.
    pub open spec fn accept(self, item: Seq<char>) -> OptionsModel {
        OptionsModel {
            flagged: item == input_dir_flag(),
            input_dir: if self.flagged {
                Some(item)
            } else {
                self.input_dir
            },
        }
    }
}

/// The input directory that `args` name: the argument after the last flag
/// that has an argument after it.
pub open spec fn named_input_dir(args: Seq<Seq<char>>) -> Option<Seq<char>>
    decreases args.len(),
{
    if args.len() < 2 {
        None
    } else if args[args.len() - 2] == input_dir_flag() {
        Some(args.last())
    } else {
        named_input_dir(args.drop_last())
    }
}

/// The options after all of `args`.
pub open spec fn options_of(args: Seq<Seq<char>>) -> OptionsModel {
    OptionsModel {
        flagged: args.len() > 0 && args.last() == input_dir_flag(),
        input_dir: named_input_dir(args),
    }
}

/// Argument by argument, `accept` arrives at what `options_of` says of all
/// the arguments.
pub proof fn lemma_options_push(args: Seq<Seq<char>>, item: Seq<char>)
    ensures
        options_of(Seq::<Seq<char>>::empty()) == OptionsModel::initial(),
        options_of(args.push(item)) == options_of(args).accept(item),
{
    assert(args.push(item).drop_last() =~= args);
}

/// The options of the command line.
#[derive(Debug)]
pub struct CommandLineOptions {
    pub input_dir: CommandLineOption<String>,
}

impl View for CommandLineOptions {
    type V = OptionsModel;

    open spec fn view(&self) -> OptionsModel {
        OptionsModel {
            flagged: self.input_dir.parsed,
            input_dir: match self.input_dir.value {
                Some(dir) => Some(dir@),
                None => None,
            },
        }
    }
}

impl CommandLineOptions {
    /// Reads one more argument.
    pub fn accept(self, item: &String) -> (options: Self)
        ensures
            options@ == self@.accept(item@),
    {
        let mut options = self;
        if options.input_dir.parsed {
            options.input_dir = options.input_dir.store(item.clone());
        }
        let flag = "--input-dir".to_owned();
        if *item == flag {
            options.input_dir.parsed = true;
        }
        options
    }

    /// Reads all the arguments, from left to right.
    pub fn from_args(args: &Vec<String>) -> (options: Self)
        ensures
            options@ == options_of(args.deep_view()),
    {
        let mut options = CommandLineOptions::default();
        let ghost all = args.deep_view();
        proof {
            lemma_options_push(all, all[0]);
            assert(all.take(0) =~= Seq::<Seq<char>>::empty());
        }
        let mut i: usize = 0;
        while i < args.len()
            invariant
                i <= args.len(),
                all == args.deep_view(),
                options@ == options_of(all.take(i as int)),
            decreases args.len() - i,
        {
            proof {
                lemma_options_push(all.take(i as int), all[i as int]);
                assert(all.take(i + 1) =~= all.take(i as int).push(all[i as int]));
            }
            options = options.accept(&args[i]);
            i += 1;
        }
        assert(all.take(i as int) =~= all);
        options
    }
}

impl Default for CommandLineOptions {
    fn default() -> (options: Self)
        ensures
            options@ == OptionsModel::initial(),
    {
        CommandLineOptions { input_dir: CommandLineOption::default() }
    }
}

} // verus!
