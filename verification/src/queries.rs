//! The text of the subgraph queries.
//!
//! Every query that is read page by page selects with the variables
//! `$block`, `$first` and `$last`, in ascending order of `id`, and is sent
//! inside a document that also asks for the block it was answered from.

use vstd::prelude::*;
use vstd::string::StringExecFns;
use crate::address::Address;

verus! {

/// What stands before a selection in the document of a paged query.
pub const DOCUMENT_HEAD: &'static str =
    "query q($block: Block_height!, $first: Int!, $last: String!) { meta: _meta(block: $block) { block { number hash } } results: ";

/// What stands after a selection in the document of a paged query.
pub const DOCUMENT_TAIL: &'static str = " }";

/// The selection of the active receivers: the indexers that have an
/// allocation.
pub const ACTIVE_RECEIVERS: &'static str =
    "indexers(block: $block, orderBy: id, orderDirection: asc, first: $first, where: { id_gt: $last, allocationCount_gt: 0 }) { id }";

/// What stands before the payer in the selection of its escrow accounts.
pub const ESCROW_ACCOUNTS_HEAD: &'static str =
    "paymentsEscrowAccounts(block: $block, orderBy: id, orderDirection: asc, first: $first, where: { id_gt: $last, payer: \"";

/// What stands after the payer in the selection of its escrow accounts.
pub const ESCROW_ACCOUNTS_TAIL: &'static str = "\" }) { id balance receiver { id } }";

/// What stands before the payer in the query for its authorized signers.
pub const AUTHORIZED_SIGNERS_HEAD: &'static str = "{ payer(id:\"";

/// What stands after the payer in the query for its authorized signers.
pub const AUTHORIZED_SIGNERS_TAIL: &'static str = "\") { signers { id } } }";

/// The hexadecimal digit for a number below sixteen, in lower case.
pub open spec fn digit(n: int) -> Seq<char> {
    if n == 0 {
        "0"@
    } else if n == 1 {
        "1"@
    } else if n == 2 {
        "2"@
    } else if n == 3 {
        "3"@
    } else if n == 4 {
        "4"@
    } else if n == 5 {
        "5"@
    } else if n == 6 {
        "6"@
    } else if n == 7 {
        "7"@
    } else if n == 8 {
        "8"@
    } else if n == 9 {
        "9"@
    } else if n == 10 {
        "a"@
    } else if n == 11 {
        "b"@
    } else if n == 12 {
        "c"@
    } else if n == 13 {
        "d"@
    } else if n == 14 {
        "e"@
    } else {
        "f"@
    }
}

/// Bytes in hexadecimal, two digits each.
pub open spec fn hex(bytes: Seq<u8>) -> Seq<char>
    decreases bytes.len(),
{
    if bytes.len() == 0 {
        Seq::empty()
    } else {
        hex(bytes.drop_last()) + digit(bytes.last() as int / 16) + digit(bytes.last() as int % 16)
    }
}

/// An address as subgraphs write it: `0x` and forty hexadecimal digits in
/// lower case.
pub open spec fn address_text(address: Address) -> Seq<char> {
    "0x"@ + hex(address.bytes@)
}

fn digit_text(n: u8) -> (text: &'static str)
    requires
        n < 16,
    ensures
        text@ == digit(n as int),
{
    if n == 0 {
        "0"
    } else if n == 1 {
        "1"
    } else if n == 2 {
        "2"
    } else if n == 3 {
        "3"
    } else if n == 4 {
        "4"
    } else if n == 5 {
        "5"
    } else if n == 6 {
        "6"
    } else if n == 7 {
        "7"
    } else if n == 8 {
        "8"
    } else if n == 9 {
        "9"
    } else if n == 10 {
        "a"
    } else if n == 11 {
        "b"
    } else if n == 12 {
        "c"
    } else if n == 13 {
        "d"
    } else if n == 14 {
        "e"
    } else {
        "f"
    }
}

/// An address as subgraphs write it.
pub fn address_hex(address: &Address) -> (text: String)
    ensures
        text@ == address_text(*address),
{
    let mut text: String = String::from_str("0x");
    let mut i: usize = 0;
    proof {
        assert(address.bytes@.take(0) =~= Seq::<u8>::empty());
    }
    while i < 20
        invariant
            i <= 20,
            text@ == "0x"@ + hex(address.bytes@.take(i as int)),
        decreases 20 - i,
    {
        let byte: u8 = address.bytes[i];
        proof {
            assert(address.bytes@.take(i + 1).drop_last() =~= address.bytes@.take(i as int));
            assert(address.bytes@.take(i + 1).last() == byte);
        }
        text.append(digit_text(byte / 16));
        text.append(digit_text(byte % 16));
        proof {
            assert(text@ =~= "0x"@ + hex(address.bytes@.take(i + 1)));
        }
        i += 1;
    }
    proof {
        assert(address.bytes@.take(20) =~= address.bytes@);
    }
    text
}

/// The document of a paged query with the selection `selection`.
pub fn paged_document(selection: &str) -> (document: String)
    ensures
        document@ == DOCUMENT_HEAD@ + selection@ + DOCUMENT_TAIL@,
{
    let mut document: String = String::from_str(DOCUMENT_HEAD);
    document.append(selection);
    document.append(DOCUMENT_TAIL);
    document
}

/// The selection of the escrow accounts that `payer` has funded.
pub fn escrow_accounts_query(payer: &Address) -> (selection: String)
    ensures
        selection@ == ESCROW_ACCOUNTS_HEAD@ + address_text(*payer) + ESCROW_ACCOUNTS_TAIL@,
{
    let mut selection: String = String::from_str(ESCROW_ACCOUNTS_HEAD);
    let payer = address_hex(payer);
    selection.append(payer.as_str());
    selection.append(ESCROW_ACCOUNTS_TAIL);
    selection
}

/// The query for the signers that `payer` has authorized. Its answer is one
/// page.
pub fn authorized_signers_query(payer: &Address) -> (query: String)
    ensures
        query@ == AUTHORIZED_SIGNERS_HEAD@ + address_text(*payer) + AUTHORIZED_SIGNERS_TAIL@,
{
    let mut query: String = String::from_str(AUTHORIZED_SIGNERS_HEAD);
    let payer = address_hex(payer);
    query.append(payer.as_str());
    query.append(AUTHORIZED_SIGNERS_TAIL);
    query
}

} // verus!
