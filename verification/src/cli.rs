//! What the command line asks of the coder.

use vstd::prelude::*;

verus! {

/// The two operations of the coder.
#[derive(Clone, Copy, Debug, PartialEq, Eq, Structural)]
pub enum Operation {
    Encode,
    Decode,
}

impl Operation {
    /// The name of the operation, as the command line shows it.
    pub open spec fn name_spec(self) -> Seq<char> {
        match self {
            Operation::Encode => "encode"@,
            Operation::Decode => "decode"@,
        }
    }

    /// The name of the operation, as the command line shows it.
    pub fn name(&self) -> (text: &'static str)
        ensures
            text@ == self.name_spec(),
    {
        match self {
            Operation::Encode => "encode",
            Operation::Decode => "decode",
        }
    }
}

/// The settings of one run, as given on the command line.
#[derive(Clone, Debug)]
pub struct Cli {
    /// Encode the file (the default).
    pub encode: bool,
    /// Decode the file.
    pub decode: bool,
    /// The lower bound of the coding range. Only used when encoding.
    pub lower_bound: u32,
    /// The upper bound of the coding range. Only used when encoding.
    pub upper_bound: u32,
    /// The name of the output file.
    pub output: String,
    /// The name of the file that is operated on.
    pub filename: String,
}

impl Cli {
    /// The settings for `filename` where nothing else is given: encode,
    /// over the whole range of 32 bits, into "output".
    pub fn new(filename: String) -> (cli: Cli)
        ensures
            cli.encode,
            !cli.decode,
            cli.lower_bound == 0,
            cli.upper_bound == u32::MAX,
            cli.output@ == "output"@,
            cli.filename == filename,
            cli.operation_spec() == Operation::Encode,
    {
        Cli {
            encode: true,
            decode: false,
            lower_bound: 0,
            upper_bound: u32::MAX,
            output: "output".to_string(),
            filename,
        }
    }

    /// Decoding wins when it is asked for; in every other case the
    /// operation is encoding.
    pub open spec fn operation_spec(&self) -> Operation {
        if self.decode {
            Operation::Decode
        } else {
            Operation::Encode
        }
    }

    /// The operation that the settings ask for.
    pub fn operation(&self) -> (op: Operation)
        ensures
            op == self.operation_spec(),
    {
        if self.decode {
            Operation::Decode
        } else {
            Operation::Encode
        }
    }
}

} // verus!
