use tap_escrow_manager::address::Address;
use tap_escrow_manager::queries::{
    address_hex, authorized_signers_query, escrow_accounts_query, paged_document,
    ACTIVE_RECEIVERS,
};

fn sample() -> Address {
    let mut bytes = [0u8; 20];
    for (i, byte) in bytes.iter_mut().enumerate() {
        *byte = (i as u8) * 13 + 0xa5;
    }
    Address::new(bytes)
}

#[test]
fn address_is_written_in_lower_case_hex() {
    assert_eq!(address_hex(&Address::new([0; 20])), "0x0000000000000000000000000000000000000000");
    assert_eq!(address_hex(&Address::new([0xff; 20])), "0xffffffffffffffffffffffffffffffffffffffff");
    assert_eq!(address_hex(&Address::new([0x0a; 20])), "0x0a0a0a0a0a0a0a0a0a0a0a0a0a0a0a0a0a0a0a0a");
    assert_eq!(address_hex(&sample()), "0xa5b2bfccd9e6f3000d1a2734414e5b6875828f9c");
}

#[test]
fn address_is_written_as_the_chain_library_prints_it() {
    for address in [sample(), Address::new([0; 20]), Address::new([0x9f; 20])] {
        let theirs = alloy_primitives::Address::from(address.bytes);
        assert_eq!(address_hex(&address), format!("{theirs:?}"));
    }
}

#[test]
fn active_receivers_are_the_indexers_with_allocations() {
    assert_eq!(
        ACTIVE_RECEIVERS,
        "indexers(block: $block, orderBy: id, orderDirection: asc, first: $first, where: { id_gt: $last, allocationCount_gt: 0 }) { id }"
    );
}

#[test]
fn escrow_accounts_are_those_of_the_payer() {
    assert_eq!(
        escrow_accounts_query(&Address::new([0xab; 20])),
        "paymentsEscrowAccounts(block: $block, orderBy: id, orderDirection: asc, first: $first, where: { id_gt: $last, payer: \"0xabababababababababababababababababababab\" }) { id balance receiver { id } }"
    );
}

#[test]
fn authorized_signers_are_those_of_the_payer() {
    assert_eq!(
        authorized_signers_query(&Address::new([0xab; 20])),
        "{ payer(id:\"0xabababababababababababababababababababab\") { signers { id } } }"
    );
}

#[test]
fn paged_document_asks_for_the_block_too() {
    assert_eq!(
        paged_document("things(first: $first) { id }"),
        "query q($block: Block_height!, $first: Int!, $last: String!) { meta: _meta(block: $block) { block { number hash } } results: things(first: $first) { id } }"
    );
}
