use digital_euro_wallet::certificate::DeviceCertificate;
use digital_euro_wallet::hash::tagged;
use digital_euro_wallet::text::hex;
use digital_euro_wallet::{
    Defunding, DeviceId, Funding, FundingRequest, Natural, PublicKey, Transfer,
};

fn key() -> PublicKey {
    let mut n = vec![0xffu8; 25];
    n[0] = 0x0f;
    n[11] = 0xf7;
    n[13] = 0xfe;
    for b in n.iter_mut().skip(14) {
        *b = 0;
    }
    n[24] = 1;
    PublicKey {
        n: Natural::from_bytes_be(&n),
        e: Natural::from_u32(65537),
    }
}

fn certificate(device: u8) -> DeviceCertificate {
    DeviceCertificate {
        device: DeviceId([device; 16]),
        public_key: key(),
        holding_limit_cents: 50_000,
        signature: Natural::zero(),
    }
}

#[test]
fn known_digests() {
    assert_eq!(
        hex(&tagged("test", &[b"transfer"])),
        "3f35be42a58762b24565c275602e898fa3a7f69f1c2cbb4d55688fa57682cea3"
    );
    assert_eq!(
        hex(&tagged("", &[])),
        "df3f619804a92fdb4057192dc43dd748ea778adc52bc498ce80524c014b81119"
    );
}

#[test]
fn framing_tells_parts_apart() {
    assert_eq!(
        hex(&tagged("t", &[b"ab", b"c"])),
        "25f4ce4058568e702b4f609dd60119cd438df021aff7d6cdceabd107685fc49e"
    );
    assert_eq!(
        hex(&tagged("t", &[b"a", b"bc"])),
        "85f9feb2f6d48ad675a2be3b147ca8b8b4817077a926256e8e6be135004c743c"
    );
}

#[test]
fn certificate_digest_is_known() {
    assert_eq!(
        hex(&certificate(7).digest()),
        "a56b399ee09f825f7690adf8abd10430f567a9ff34656f7ad3537b916514d9ea"
    );
    let mut other = certificate(7);
    other.holding_limit_cents += 1;
    assert_ne!(other.digest(), certificate(7).digest());
    assert_ne!(certificate(8).digest(), certificate(7).digest());
}

#[test]
fn message_digests_are_known() {
    let transfer = Transfer {
        payer: certificate(1),
        payee: DeviceId([2; 16]),
        amount_cents: 600,
        nonce: [3; 16],
        counter: 9,
        signature: Natural::zero(),
    };
    assert_eq!(
        hex(&transfer.digest()),
        "497be00ce6cf1498aff147129e7d6211579d333341d7b0b411cd5e2838531bd7"
    );
    let request = FundingRequest {
        device: DeviceId([1; 16]),
        amount_cents: 600,
        nonce: [3; 16],
        signature: Natural::zero(),
    };
    assert_eq!(
        hex(&request.digest()),
        "ebfc5ca4f5c63ff8ffc5c954878f27536badd29d7d8386482860183bef4ccee3"
    );
    let funding = Funding {
        device: DeviceId([1; 16]),
        amount_cents: 600,
        nonce: [3; 16],
        signature: Natural::zero(),
    };
    assert_eq!(
        hex(&funding.digest()),
        "bd25ac34a2c939dec800364e52fcfef79d076b8ee8f56fc7f7b8d3cdc14e2018"
    );
    let order = Defunding {
        device: DeviceId([1; 16]),
        amount_cents: 600,
        counter: 9,
        signature: Natural::zero(),
    };
    assert_eq!(
        hex(&order.digest()),
        "a5f7ec7ca692baef3ffec5e2abd261f30a98eacdabaf4c4ac1c389c64b16caca"
    );
}
