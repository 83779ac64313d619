//! A two-command CLI argument parser: `balance`, and `send amount address`.
//! It shares the codec's error type; every failure is a `ParseError` whose
//! message the contract pins exactly.

use crate::errors::BitcoinError;
use crate::text::chars_u64_text;
use crate::text::chars_u64_value;
use crate::text::parse_u64;
use crate::text::str_concat;
use crate::text::str_eq;
use vstd::prelude::*;

verus! {

/// A parsed command line.
#[derive(Debug)]
pub enum CliCommand {
    /// Send `amount` units to `address`.
    Send { amount: u64, address: String },
    /// Query the balance.
    Balance,
}

/// Does `args` spell the balance query?
pub open spec fn is_balance_args(args: Seq<String>) -> bool {
    args.len() == 1 && args[0]@ == "balance"@
}

/// Does `args` spell a send command, whatever its amount looks like?
pub open spec fn is_send_args(args: Seq<String>) -> bool {
    args.len() == 3 && args[0]@ == "send"@
}

/// Maps `["balance"]` to the balance query and `["send", amount, address]`
/// to a send command with the amount read as an unsigned 64-bit decimal
/// number. Anything else is a `ParseError` naming the cause.
pub fn parse_cli_args(args: &[String]) -> (r: Result<CliCommand, BitcoinError>)
    ensures
        match r {
            Ok(c) => match c {
                CliCommand::Balance => is_balance_args(args@),
                CliCommand::Send { amount, address } => {
                    &&& is_send_args(args@)
                    &&& chars_u64_text(args@[1]@)
                    &&& chars_u64_value(args@[1]@) == amount
                    &&& address@ == args@[2]@
                },
            },
            Err(e) => match e {
                BitcoinError::ParseError(m) => {
                    &&& !is_balance_args(args@)
                    &&& if args@.len() == 0 {
                        m@ == "No command provided"@
                    } else if is_send_args(args@) {
                        &&& (!chars_u64_text(args@[1]@) || chars_u64_value(args@[1]@) > u64::MAX)
                        &&& m@ == "Invalid amount format"@
                    } else {
                        m@ == "Unknown command: "@ + args@[0]@
                    }
                },
                _ => false,
            },
        },
{
    if args.len() == 0 {
        return Err(BitcoinError::ParseError("No command provided".to_owned()));
    }
    if args.len() == 1 && str_eq(args[0].as_str(), "balance") {
        return Ok(CliCommand::Balance);
    }
    if args.len() == 3 && str_eq(args[0].as_str(), "send") {
        match parse_u64(args[1].as_str()) {
            Some(amount) => {
                return Ok(CliCommand::Send { amount, address: args[2].clone() });
            },
            None => {
                return Err(BitcoinError::ParseError("Invalid amount format".to_owned()));
            },
        }
    }
    Err(BitcoinError::ParseError(str_concat("Unknown command: ", args[0].as_str())))
}

} // verus!
