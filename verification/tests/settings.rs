use ecies::config::{reset_config, update_config, Config};
use sealed_auction::sealed::open_bid;

#[test]
fn the_settings_of_the_cipher_decide_what_opens() {
    let (secret, public) = ecies::utils::generate_keypair();
    let secret = secret.serialize().to_vec();
    let public = public.serialize().to_vec();
    let plain = br#"{"bidder":"A","amount":1,"handle":"h"}"#.to_vec();

    let long = ecies::encrypt(&public, &plain).unwrap();
    assert_eq!(long.len(), plain.len() + 97);
    assert_eq!(open_bid(&hex::encode(&long), &secret), Some(plain.clone()));

    update_config(Config { is_ephemeral_key_compressed: true, is_hkdf_key_compressed: false });
    let short = ecies::encrypt(&public, &plain).unwrap();
    assert_eq!(short.len(), plain.len() + 65);
    assert_eq!(open_bid(&hex::encode(&short), &secret), Some(plain.clone()));
    assert_eq!(open_bid(&hex::encode(&long), &secret), None);

    update_config(Config { is_ephemeral_key_compressed: false, is_hkdf_key_compressed: true });
    assert_eq!(open_bid(&hex::encode(&long), &secret), None);
    assert_eq!(open_bid(&hex::encode(&short), &secret), None);

    reset_config();
    assert_eq!(open_bid(&hex::encode(&long), &secret), Some(plain));
    assert_eq!(open_bid(&hex::encode(&short), &secret), None);
}
