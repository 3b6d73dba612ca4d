use temporary_store::coin::Coin;

#[test]
fn coin_reads_back_what_it_wrote() {
    let coin = Coin { id: [7; 32], balance: 258 };
    let bytes = coin.to_bcs_bytes().unwrap();
    assert_eq!(bytes.len(), 40);
    assert_eq!(&bytes[32..], &[2, 1, 0, 0, 0, 0, 0, 0]);
    let read = Coin::from_bcs_bytes(&bytes).unwrap();
    assert_eq!(read.id, [7; 32]);
    assert_eq!(read.balance, 258);
}
