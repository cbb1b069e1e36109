use bit_array::BitArray;
use iso8583::error::IsoError;
use iso8583::iso_field::{FieldCharType, FieldPayload, FieldSizeType, IsoField};
use iso8583::iso_msg::{IsoMsg, IsoSpecs};
use typenum::U128;

const PAYLOAD: &str = "0100F2246481087088360000000000000004016123456717929985100300000000000013112042128251178162210581284001059006419310712815007743555555555555888Test Merchant         Richmond1    51USA011          N8402001010000000000014510002329467890120100  00054002140000000000012312340001080000000020120040001N 989";

/// Auth spec defines the format of Iso8583 message
pub struct AuthSpecs {
    handle: Vec<IsoField>,
}

impl AuthSpecs {
    pub fn new() -> AuthSpecs {
        AuthSpecs { handle: define_auth_specs() }
    }
}

impl IsoSpecs for AuthSpecs {
    fn get_handle(&self) -> &Vec<IsoField> {
        &self.handle
    }
}

fn define_auth_specs() -> Vec<IsoField> {
    vec![
        IsoField::new("Message Type Indicator",FieldCharType::Iso8583_ns,  4,FieldSizeType::Fixed),
        IsoField::new("Bitmap",FieldCharType::Iso8583_bmps, 16,FieldSizeType::BitMap),
        IsoField::new("Primary Account Number",FieldCharType::Iso8583_ns, 19,FieldSizeType::LlVar),
        IsoField::new("Processing Code",FieldCharType::Iso8583_ns,  6,FieldSizeType::Fixed),
        IsoField::new("Amount, Txn",FieldCharType::Iso8583_ns, 12,FieldSizeType::Fixed),
        IsoField::new("Amount, Reconciliation",FieldCharType::Iso8583_ns, 12,FieldSizeType::Fixed),
        IsoField::new("Amount, Cardholder Billing",FieldCharType::Iso8583_ns, 12,FieldSizeType::Fixed),
        IsoField::new("Date and Time, Transmission",FieldCharType::Iso8583_ns, 10,FieldSizeType::Fixed),
        IsoField::new("Amount, Cardholder Billing Fee",FieldCharType::Iso8583_ns,  8,FieldSizeType::Fixed),
        IsoField::new("Conversion Rate, Reconciliation",FieldCharType::Iso8583_ns,  8,FieldSizeType::Fixed),
        IsoField::new("Conversion Rate, Cardholder Billing",FieldCharType::Iso8583_ns,  8,FieldSizeType::Fixed),
        IsoField::new("Systems Trace Audit Number",FieldCharType::Iso8583_ns,  6,FieldSizeType::Fixed),
        IsoField::new("Date and Time, Local Txn",FieldCharType::Iso8583_ns,  6,FieldSizeType::Fixed),
        IsoField::new("Date, Effective",FieldCharType::Iso8583_ns,  4,FieldSizeType::Fixed),
        IsoField::new("Date, Expiration",FieldCharType::Iso8583_ns,  4,FieldSizeType::Fixed),
        IsoField::new("Date, Settlement",FieldCharType::Iso8583_ns,  4,FieldSizeType::Fixed),
        IsoField::new("Date, Conversion",FieldCharType::Iso8583_ns,  4,FieldSizeType::Fixed),
        IsoField::new("Date, Capture",FieldCharType::Iso8583_ns,  4,FieldSizeType::Fixed),
        IsoField::new("Merchant Type",FieldCharType::Iso8583_ns,  4,FieldSizeType::Fixed),
        IsoField::new("Country Code, Acquiring Inst",FieldCharType::Iso8583_ns,  3,FieldSizeType::Fixed),
        IsoField::new("Country Code, Primary Account Number",FieldCharType::Iso8583_ns,  3,FieldSizeType::Fixed),
        IsoField::new("Country Code, Forwarding Inst",FieldCharType::Iso8583_ns,  3,FieldSizeType::Fixed),
        IsoField::new("Point of Service Data Code",FieldCharType::Iso8583_ns,  3,FieldSizeType::Fixed),
        IsoField::new("Card Sequence Number",FieldCharType::Iso8583_ns,  3,FieldSizeType::Fixed),
        IsoField::new("Function Code",FieldCharType::Iso8583_ns,  3,FieldSizeType::Fixed),
        IsoField::new("Message Reason Code",FieldCharType::Iso8583_ns,  2,FieldSizeType::Fixed),
        IsoField::new("Card Acceptor Business Code",FieldCharType::Iso8583_ns,  2,FieldSizeType::Fixed),
        IsoField::new("Approval Code Length",FieldCharType::Iso8583_ns,  1,FieldSizeType::Fixed),
        IsoField::new("Date, Reconciliation",FieldCharType::Iso8583_ns,  9,FieldSizeType::Fixed),
        IsoField::new("Reconciliation Indicator",FieldCharType::Iso8583_ns,  9,FieldSizeType::Fixed),
        IsoField::new("Amounts, Original",FieldCharType::Iso8583_ns, 24,FieldSizeType::Fixed),
        IsoField::new("Acquirer Reference Data",FieldCharType::Iso8583_ans, 99,FieldSizeType::LlVar),
        IsoField::new(" Acquirer Inst Id Code",FieldCharType::Iso8583_ns, 11,FieldSizeType::LlVar),
        IsoField::new("Forwarding Inst Id Code",FieldCharType::Iso8583_ns, 11,FieldSizeType::LlVar),
        IsoField::new("Primary Account Number, Extended",FieldCharType::Iso8583_ns, 28,FieldSizeType::LlVar),
        IsoField::new("Track 2 Data",FieldCharType::ISO8583_z , 37,FieldSizeType::LlVar),
        IsoField::new("Track 3 Data",FieldCharType::ISO8583_z ,104,FieldSizeType::LllVar),
        IsoField::new("Retrieval Reference Number",FieldCharType::Iso8583_anp, 12,FieldSizeType::Fixed),
        IsoField::new("Approval Code",FieldCharType::Iso8583_anp,  6,FieldSizeType::Fixed),
        IsoField::new("Action Code",FieldCharType::Iso8583_ns,  2,FieldSizeType::Fixed),
        IsoField::new("Service Code",FieldCharType::Iso8583_ns,  3,FieldSizeType::Fixed),
        IsoField::new("Card Acceptor Terminal Id",FieldCharType::Iso8583_ans,  8,FieldSizeType::Fixed),
        IsoField::new("Card Acceptor Id Code",FieldCharType::Iso8583_ans, 15,FieldSizeType::Fixed),
        IsoField::new("Card Acceptor Name/Location",FieldCharType::Iso8583_ans, 40,FieldSizeType::Fixed),
        IsoField::new("dditional Response Data",FieldCharType::Iso8583_ans, 99,FieldSizeType::LlVar),
        IsoField::new("Track 1 Data",FieldCharType::Iso8583_ans, 76,FieldSizeType::LlVar),
        IsoField::new("Amounts, Fees",FieldCharType::Iso8583_ans,204,FieldSizeType::LllVar),
        IsoField::new("Additional Data - National",FieldCharType::Iso8583_ans,999,FieldSizeType::LllVar),
        IsoField::new("Additional Data - Private",FieldCharType::Iso8583_ans,999,FieldSizeType::LllVar),
        IsoField::new("Currency Code, Txn",FieldCharType::Iso8583_an,  3,FieldSizeType::Fixed),
        IsoField::new("Currency Code, Reconciliation",FieldCharType::Iso8583_an,  3,FieldSizeType::Fixed),
        IsoField::new("Currency Code, Cardholder Billing",FieldCharType::Iso8583_an,  3,FieldSizeType::Fixed),
        IsoField::new("Personal Id Number (PIN) Data",FieldCharType::Iso8583_ans ,  16,FieldSizeType::Fixed),
        IsoField::new("Security Related Control Information",FieldCharType::Iso8583_ns , 16,FieldSizeType::Fixed),
        IsoField::new("Amounts, Additional",FieldCharType::Iso8583_ans,120,FieldSizeType::LllVar),
        IsoField::new("IC Card System Related Data",FieldCharType::Iso8583_ans ,999,FieldSizeType::LllVar),
        IsoField::new("Original Data Elements",FieldCharType::Iso8583_ans, 35,FieldSizeType::LlVar),
        IsoField::new("Authorization Life Cycle Code",FieldCharType::Iso8583_ans,999,FieldSizeType::LllVar),
        IsoField::new("Authorizing Agent Inst Id Cod",FieldCharType::Iso8583_ans,999,FieldSizeType::LllVar),
        IsoField::new("Transport Data",FieldCharType::Iso8583_ans,999,FieldSizeType::LllVar),
        IsoField::new("Reserved for National use",FieldCharType::Iso8583_ans,999,FieldSizeType::LllVar),
        IsoField::new("Reserved for National use",FieldCharType::Iso8583_ans,999,FieldSizeType::LllVar),
        IsoField::new("Reserved for Private use",FieldCharType::Iso8583_ans,999,FieldSizeType::LllVar),
        IsoField::new("Reserved for Private use",FieldCharType::Iso8583_ans,999,FieldSizeType::LllVar),
        IsoField::new("Message Authentication Code Field",FieldCharType::Iso8583_b ,  8,FieldSizeType::Fixed),
        IsoField::new("Reserved for ISO use",FieldCharType::Iso8583_b ,  8,FieldSizeType::Fixed),
        IsoField::new("Reconciliation code, Original Fees",FieldCharType::Iso8583_ans,  1,FieldSizeType::Fixed),
        IsoField::new("Extended Payment Data",FieldCharType::Iso8583_ns,  2,FieldSizeType::Fixed),
        IsoField::new("Country Code, Receiving Inst",FieldCharType::Iso8583_ns,  3,FieldSizeType::Fixed),
        IsoField::new("Country Code, Settlement Inst",FieldCharType::Iso8583_ns,  3,FieldSizeType::Fixed),
        IsoField::new("Network Management Information Code",FieldCharType::Iso8583_ns,  3,FieldSizeType::Fixed),
        IsoField::new("Message Number",FieldCharType::Iso8583_ns,  6,FieldSizeType::Fixed),
        IsoField::new("Data Record",FieldCharType::Iso8583_ans,999,FieldSizeType::LllVar),
        IsoField::new("Date, Action",FieldCharType::Iso8583_ns,  6,FieldSizeType::Fixed),
        IsoField::new("Credits, Number",FieldCharType::Iso8583_ns, 10,FieldSizeType::Fixed),
        IsoField::new("Credits, Reversal Number",FieldCharType::Iso8583_ns, 10,FieldSizeType::Fixed),
        IsoField::new("Debits, Number",FieldCharType::Iso8583_ns, 10,FieldSizeType::Fixed),
        IsoField::new("Debits, Reversal Number",FieldCharType::Iso8583_ns, 10,FieldSizeType::Fixed),
        IsoField::new("Transfer, Number",FieldCharType::Iso8583_ns, 10,FieldSizeType::Fixed),
        IsoField::new("Transfer, Reversal Number",FieldCharType::Iso8583_ns, 10,FieldSizeType::Fixed),
        IsoField::new("Inquiries, Number",FieldCharType::Iso8583_ns, 10,FieldSizeType::Fixed),
        IsoField::new("Authorizations, Number",FieldCharType::Iso8583_ns, 10,FieldSizeType::Fixed),
        IsoField::new("Inquiries, Reversal Number",FieldCharType::Iso8583_ns, 10,FieldSizeType::Fixed),
        IsoField::new("Payments, Number",FieldCharType::Iso8583_ns, 10,FieldSizeType::Fixed),
        IsoField::new("Payments, Reversal Number",FieldCharType::Iso8583_ns, 10,FieldSizeType::Fixed),
        IsoField::new("Fee Collections, Number",FieldCharType::Iso8583_ns, 10,FieldSizeType::Fixed),
        IsoField::new("Credits, Amount",FieldCharType::Iso8583_ns, 16,FieldSizeType::Fixed),
        IsoField::new("Credits, Reversal Amount",FieldCharType::Iso8583_ns, 16,FieldSizeType::Fixed),
        IsoField::new("Debits, Amount",FieldCharType::Iso8583_ns, 16,FieldSizeType::Fixed),
        IsoField::new("Debits, Reversal Amount",FieldCharType::Iso8583_ns, 16,FieldSizeType::Fixed),
        IsoField::new("Authorizations, Reversal Number",FieldCharType::Iso8583_ns, 42,FieldSizeType::Fixed),
        IsoField::new("Country Code, Txn Destination Inst",FieldCharType::Iso8583_ns,  3,FieldSizeType::Fixed),
        IsoField::new("Country Code, Txn Originator Inst",FieldCharType::Iso8583_ns,  3,FieldSizeType::Fixed),
        IsoField::new("Txn Destination Inst Id Code",FieldCharType::Iso8583_ns, 11,FieldSizeType::LlVar),
        IsoField::new("Txn Originator Inst Id Code",FieldCharType::Iso8583_ns, 11,FieldSizeType::LlVar),
        IsoField::new("Card Issuer Reference Data",FieldCharType::Iso8583_ans, 42,FieldSizeType::Fixed),
        IsoField::new("Key Management Data",FieldCharType::Iso8583_b ,999,FieldSizeType::LllVar),
        IsoField::new("Amount, Net Reconciliation",FieldCharType::Iso8583_xn, 17,FieldSizeType::Fixed),
        IsoField::new("Payee",FieldCharType::Iso8583_ans, 25,FieldSizeType::Fixed),
        IsoField::new("Settlement Inst Id Code",FieldCharType::Iso8583_an, 11,FieldSizeType::LlVar),
        IsoField::new("Receiving Inst Id Code",FieldCharType::Iso8583_ns, 11,FieldSizeType::LlVar),
        IsoField::new("File Name",FieldCharType::Iso8583_ans, 17,FieldSizeType::LlVar),
        IsoField::new("Account Id 1",FieldCharType::Iso8583_ans, 28,FieldSizeType::LlVar),
        IsoField::new("Account Id 2",FieldCharType::Iso8583_ans, 28,FieldSizeType::LlVar),
        IsoField::new("Txn Description",FieldCharType::Iso8583_ans,255,FieldSizeType::LllVar),
        IsoField::new("Credits, Chargeback Amount",FieldCharType::Iso8583_ns, 16,FieldSizeType::Fixed),
        IsoField::new("Debits, Chargeback Amount",FieldCharType::Iso8583_ns, 16,FieldSizeType::Fixed),
        IsoField::new("Credits, Chargeback Number",FieldCharType::Iso8583_ns, 10,FieldSizeType::Fixed),
        IsoField::new("Debits, Chargeback Number",FieldCharType::Iso8583_ns, 10,FieldSizeType::Fixed),
        IsoField::new("Credits, Fee Amounts",FieldCharType::Iso8583_ans, 84,FieldSizeType::LlVar),
        IsoField::new("Debits, Fee Amounts",FieldCharType::Iso8583_ans, 84,FieldSizeType::LlVar),
        IsoField::new("Reserved for ISO use",FieldCharType::Iso8583_ns,12,FieldSizeType::Fixed ),
        IsoField::new("Reserved for ISO use",FieldCharType::Iso8583_ans,999,FieldSizeType::LllVar),
        IsoField::new("Reserved for ISO use",FieldCharType::Iso8583_ans,999,FieldSizeType::LllVar),
        IsoField::new("Reserved for ISO use",FieldCharType::Iso8583_ans,999,FieldSizeType::LllVar),
        IsoField::new("Reserved for ISO use",FieldCharType::Iso8583_ans,999,FieldSizeType::LllVar),
        IsoField::new("Reserved for National use",FieldCharType::Iso8583_ans,999,FieldSizeType::LllVar),
        IsoField::new("Reserved for National use",FieldCharType::Iso8583_ans,999,FieldSizeType::LllVar),
        IsoField::new("Reserved for National use",FieldCharType::Iso8583_ans,999,FieldSizeType::LllVar),
        IsoField::new("Reserved for National use",FieldCharType::Iso8583_ans,999,FieldSizeType::LllVar),
        IsoField::new("Reserved for National use",FieldCharType::Iso8583_ans,999,FieldSizeType::LllVar),
        IsoField::new("Reserved for National use",FieldCharType::Iso8583_ans,999,FieldSizeType::LllVar),
        IsoField::new("Reserved for National use",FieldCharType::Iso8583_ans,999,FieldSizeType::LllVar),
        IsoField::new("Reserved for Private use",FieldCharType::Iso8583_ans,999,FieldSizeType::LllVar),
        IsoField::new("Reserved for Private use",FieldCharType::Iso8583_ans,999,FieldSizeType::LllVar),
        IsoField::new("Reserved for Private use",FieldCharType::Iso8583_ans,999,FieldSizeType::LllVar),
        IsoField::new("Reserved for Private use",FieldCharType::Iso8583_ans,999,FieldSizeType::LllVar),
        IsoField::new("Reserved for Private use",FieldCharType::Iso8583_ans,999,FieldSizeType::LllVar),
        IsoField::new("Message Authentication Code Field",FieldCharType::Iso8583_b ,  8,FieldSizeType::Fixed),
    ]
}

#[test]
fn bit_array_test() {
    let bitmap = "F2246481087088360000000000000004";
    let num_bytes: usize = bitmap.len() / 16;
    let mut bv = BitArray::<u64, U128>::from_elem(false);

    let mut field_index = 0;
    let mut bit_map_index = 0;
    let mut num_bits;
    for i in 0..num_bytes {
        if i == 0 {
            field_index += 1;
        }
        if i == 0 {
            num_bits = 30;
        } else {
            num_bits = 31;
        }
        let ms = u32::from_str_radix(&bitmap[bit_map_index..bit_map_index + 8], 16).unwrap();
        for x in (0..num_bits).rev() {
            bv.set(field_index, IsoMsg::is_bit_set(ms, x as u8));
            field_index += 1;
        }
        bit_map_index += 8;
        let ls = u32::from_str_radix(&bitmap[bit_map_index..bit_map_index + 8], 16).unwrap();
        for x in (0..num_bits).rev() {
            bv.set(field_index, IsoMsg::is_bit_set(ls, x as u8));
            field_index += 1;
        }
        if i == 0 && !IsoMsg::is_bit_set(ms, 31u8) {
            break;
        }
    }
}

#[test]
fn process_bitmap_test() {
    let bitmap = "0010F2246481087088360000000000000004";
    let handle = AuthSpecs::new();
    let (bit_arrays, _) = IsoMsg::process_bitmap(&handle, 1, bitmap.as_bytes()).unwrap();
    assert_eq!(bit_arrays.len(), 1);
}

#[test]
fn from_byte_array_test() {
    let iso_spec = AuthSpecs::new();
    let mut fields = Vec::<FieldPayload>::with_capacity(iso_spec.get_handle().len());
    IsoMsg::from_byte_array(&iso_spec, &mut fields, PAYLOAD.as_bytes()).unwrap();
    assert_eq!(fields.len(), 129);
}

#[test]
fn init_iso_msg_test() {
    let payload = PAYLOAD;
    let handle = AuthSpecs::new();
    let mut iso_msg = IsoMsg::new(&handle, payload.as_bytes()).unwrap();
    let mut buffer = [0u8; 1024];
    {
        let res = iso_msg.get_field(0, &mut buffer);
        assert_eq!(res.unwrap(), 4);
        assert_eq!(&buffer[..4], "0100".as_bytes());
    }
    {
        let res = iso_msg.get_field(1, &mut buffer);
        assert_eq!(res.unwrap(), 32);
        assert_eq!(&buffer[..32], "F2246481087088360000000000000004".as_bytes());
    }
    {
        let res = iso_msg.get_field(2, &mut buffer);
        assert_eq!(res.unwrap(), 16);
        assert_eq!(&buffer[..16], "1234567179299851".as_bytes());
    }
    {
        let res = iso_msg.get_field(3, &mut buffer);
        assert_eq!(res.unwrap(), 6);
        assert_eq!(&buffer[..6], "003000".as_bytes());
    }
    {
        let res = iso_msg.get_field(4, &mut buffer);
        assert_eq!(res.unwrap(), 12);
        assert_eq!(&buffer[..12], "000000000131".as_bytes());
    }
    {
        let res = iso_msg.get_field(5, &mut buffer);
        assert_eq!(res.is_err(), true);
        assert_eq!(res.map_err(|e| e.as_str()), Err("Field not set"));
    }
    {
        let _ = iso_msg.set_field(0, "0110".as_bytes());
        let res = iso_msg.get_field(0, &mut buffer);
        assert_eq!(res.unwrap(), 4);
        assert_eq!(&buffer[..4], "0110".as_bytes());
    }
    {
        {
            let _ = iso_msg.remove_field(0);
        }
        {
            let res = iso_msg.get_field(0, &mut buffer);
            assert_eq!(res.is_err(), true);
            assert_eq!(res.map_err(|e| e.as_str()), Err("Field not set"));
        }
        {
            let _ = iso_msg.set_field(0, "0110".as_bytes());
        }
        {
            let res = iso_msg.get_field(0, &mut buffer);
            assert_eq!(res.unwrap(), 4);
            assert_eq!(&buffer[..4], "0110".as_bytes());
        }
    }
}

#[test]
fn iso_to_byte_array_test() {
    let payload = PAYLOAD;
    let handle = AuthSpecs::new();
    let iso_msg = IsoMsg::new(&handle, payload.as_bytes()).unwrap();
    let mut buffer = [0u8; 1024];
    let total_size = iso_msg.to_byte_array(&mut buffer).unwrap();
    assert_eq!(payload.len(), total_size);
    assert_eq!(std::str::from_utf8(&buffer[0..total_size]).unwrap(), payload);
}

#[test]
fn iso_auth_req_test() {
    let payload = PAYLOAD;
    let handle = AuthSpecs::new();
    let mut iso_msg = IsoMsg::new(&handle, payload.as_bytes()).unwrap();
    let mut out_buffer = [0u8; 1024];

    let mti = String::from("0110");
    {
        let res = iso_msg.set_field(0, &mti.as_bytes());
        assert_eq!(res, Ok(()));
    }
    let pan = String::from("1234567229741725");
    {
        let res = iso_msg.set_field(2, &pan.as_bytes());
        assert_eq!(res, Ok(()));
    }
    {
        let expiry = String::from("2202");
        let res = iso_msg.set_field(14, &expiry.as_bytes());
        assert_eq!(res, Ok(()));
    }
    {
        let response_code = String::from("00");
        let res = iso_msg.set_field(39, &response_code.as_bytes());
        assert_eq!(res, Ok(()));
    }
    {
        let _total_size = iso_msg.to_byte_array(&mut out_buffer).unwrap();
        assert_eq!(
            std::str::from_utf8(&out_buffer[4..36 as usize]).unwrap(),
            "F22464810A7088360000000000000004"
        );
    }
    {
        let res = iso_msg.remove_field(126);
        assert_eq!(res, Ok(()));
    }
    {
        let total_size = iso_msg.to_byte_array(&mut out_buffer).unwrap();
        assert!(total_size > 0);
    }
    {
        let result_code = "          M";
        let res1 = iso_msg.set_field(44, result_code.as_bytes());
        assert_eq!(res1, Ok(()));
    }

    // With field 126 removed no field of the second block is left: the
    // bitmap is one block and its reserved flag is clear.
    let tiso_msg_responsebyte_array = "0110722464810A70883601612345672297417250030000000000001311204212825117816220258128400105900641931071281500774300555555555555888Test Merchant         Richmond1    51USA011          M8402001010000000000014510002329467890120100  0005400214000000000001231234000108000000002";
    let total_size = iso_msg.to_byte_array(&mut out_buffer).unwrap();
    assert_eq!(tiso_msg_responsebyte_array.len(), total_size);
    assert_eq!(
        std::str::from_utf8(&out_buffer[0..total_size]).unwrap(),
        tiso_msg_responsebyte_array
    );
}

#[test]
fn error_texts() {
    assert_eq!(IsoError::FieldAbsent.as_str(), "Field not set");
    assert_eq!(
        IsoError::BufferTooSmall.as_str(),
        "Input buffer is smaller than field value"
    );
}

#[test]
fn field_tokens() {
    assert_eq!(FieldCharType::Iso8583_xn.as_str(), "xs");
    assert_eq!(FieldSizeType::LlllVar.as_str(), "llllvar");
    assert_eq!("BitMap".parse::<FieldSizeType>(), Ok(FieldSizeType::BitMap));
    assert_eq!("bmps".parse::<FieldCharType>(), Ok(FieldCharType::Iso8583_bmps));
    assert_eq!("BMPS".parse::<FieldCharType>(), Err(()));
}
