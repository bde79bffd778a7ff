use turnstone::contract::Contract;
use turnstone::error::ContractError;
use turnstone::msg::{job_id, Coin, InstantiateMsg, JobId, JobInfo, QueryMsg, QueryResult};

fn coin(amount: u128) -> Coin {
    Coin { denom: "¤".to_string(), amount }
}

fn coin2(amount: u128) -> Coin {
    Coin { denom: "🐥".to_string(), amount }
}

fn fresh_contract() -> Contract {
    Contract::instantiate(&InstantiateMsg { valset: vec![] }).unwrap()
}

fn query(c: &Contract, msg: QueryMsg) -> QueryResult {
    c.query(&msg).unwrap()
}

#[test]
fn simple_deposit_query_withdraw() {
    let mut c = fresh_contract();

    let addr_a = "aaa";
    let addr_b = "bbb";
    let addr_c = "ccc";
    for (sender, funds, jid) in [
        (addr_a, vec![coin(600)], job_id(1)),
        (addr_a, vec![coin(400)], job_id(1)),
        (addr_a, vec![coin(500)], job_id(2)),
        (addr_b, vec![coin(6000)], job_id(1)),
        (addr_a, vec![coin2(777)], job_id(1)),
        (addr_c, vec![coin(4), coin(6), coin2(8), coin2(0)], job_id(3)),
    ] {
        c.execute_deposit(sender, &funds, &jid).unwrap();
    }

    let qr = query(&c, QueryMsg::GetDepositInfo { address: addr_a.to_string() });
    assert_eq!(
        qr,
        QueryResult::Jobs(vec![
            JobInfo { coin: coin(1000), job_id: job_id(1) },
            JobInfo { coin: coin2(777), job_id: job_id(1) },
            JobInfo { coin: coin(500), job_id: job_id(2) },
        ])
    );

    let qr = query(&c, QueryMsg::GetJobInfo { job_id: job_id(1) });
    match qr {
        QueryResult::Balance(mut coins) => {
            coins.sort_by_key(|coin| coin.denom.clone());
            assert_eq!(coins, vec![coin(7000), coin2(777)]);
        }
        _ => panic!("GetJobInfo must return a Balance"),
    };

    c.execute_withdraw(
        addr_a,
        &vec![
            JobInfo { coin: coin(14), job_id: job_id(1) },
            JobInfo { coin: coin(500), job_id: job_id(2) },
        ],
    )
    .unwrap();

    let qr = query(&c, QueryMsg::GetDepositInfo { address: addr_a.to_string() });
    assert_eq!(
        qr,
        QueryResult::Jobs(vec![
            JobInfo { coin: coin(986), job_id: job_id(1) },
            JobInfo { coin: coin2(777), job_id: job_id(1) },
        ])
    );
}

#[test]
fn deposit_withdraw_errors() {
    let mut c = fresh_contract();

    let addr_a = "aaa";
    for (funds, jid) in [
        // No empty deposits.
        (vec![], job_id(1)),
        // Or zero deposits.
        (vec![coin(0)], job_id(2)),
    ] {
        assert!(c.execute_deposit(addr_a, &funds, &jid).is_err());
    }
    c.execute_deposit(addr_a, &vec![coin(1000)], &job_id(1)).unwrap();

    for withdraw_info in [
        // No withdrawing nothing.
        vec![],
        // Or too much.
        vec![JobInfo { coin: coin(2000), job_id: job_id(1) }],
        // Or too much but piecemeal.
        vec![
            JobInfo { coin: coin(501), job_id: job_id(1) },
            JobInfo { coin: coin(501), job_id: job_id(1) },
        ],
        // Or of the wrong denomination.
        vec![JobInfo { coin: coin2(1), job_id: job_id(1) }],
    ] {
        assert!(c.execute_withdraw(addr_a, &withdraw_info).is_err());
    }
}

#[test]
fn deposit_then_drain_deletes_the_record() {
    // Deposit 600 then 400 for one triple, withdraw the full 1000, and the
    // record is gone: any further positive withdrawal is an error.
    let mut c = fresh_contract();
    let owner = "X";
    let j = JobId("J".to_string());
    let u = Coin { denom: "u".to_string(), amount: 600 };
    c.execute_deposit(owner, &vec![u], &j).unwrap();
    let u = Coin { denom: "u".to_string(), amount: 400 };
    c.execute_deposit(owner, &vec![u], &j).unwrap();

    let qr = query(&c, QueryMsg::GetJobInfo { job_id: JobId("J".to_string()) });
    assert_eq!(
        qr,
        QueryResult::Balance(vec![Coin { denom: "u".to_string(), amount: 1000 }])
    );

    let w = JobInfo {
        coin: Coin { denom: "u".to_string(), amount: 1000 },
        job_id: JobId("J".to_string()),
    };
    c.execute_withdraw(owner, &vec![w]).unwrap();

    let qr = query(&c, QueryMsg::GetDepositInfo { address: owner.to_string() });
    assert_eq!(qr, QueryResult::Jobs(vec![]));

    let w = JobInfo {
        coin: Coin { denom: "u".to_string(), amount: 1 },
        job_id: JobId("J".to_string()),
    };
    assert_eq!(
        c.execute_withdraw(owner, &vec![w]),
        Err(ContractError::InsufficientFunds)
    );
}

#[test]
fn withdrawal_line_items_conserve_amounts() {
    // The outbound line items of a batch are exactly the requested amounts,
    // and a failing entry aborts the whole batch with nothing changed.
    let mut c = fresh_contract();
    let owner = "o";
    c.execute_deposit(owner, &vec![coin(100), coin2(50)], &job_id(1)).unwrap();
    c.execute_deposit(owner, &vec![coin(30)], &job_id(2)).unwrap();

    let batch = vec![
        JobInfo { coin: coin(10), job_id: job_id(1) },
        JobInfo { coin: coin2(20), job_id: job_id(1) },
        JobInfo { coin: coin(30), job_id: job_id(2) },
    ];
    let line_items = c.execute_withdraw(owner, &batch).unwrap();
    assert_eq!(line_items, vec![coin(10), coin2(20), coin(30)]);

    // Total withdrawn per denomination equals the sum of the line items:
    // 100 + 30 - (10 + 30) = 90 of the first denom, 50 - 20 = 30 of the other.
    let qr = query(&c, QueryMsg::GetDepositInfo { address: owner.to_string() });
    assert_eq!(
        qr,
        QueryResult::Jobs(vec![
            JobInfo { coin: coin(90), job_id: job_id(1) },
            JobInfo { coin: coin2(30), job_id: job_id(1) },
        ])
    );

    // A batch with one bad entry leaves every balance as it was.
    let bad = vec![
        JobInfo { coin: coin(90), job_id: job_id(1) },
        JobInfo { coin: coin2(31), job_id: job_id(1) },
    ];
    assert_eq!(
        c.execute_withdraw(owner, &bad),
        Err(ContractError::InsufficientFunds)
    );
    let qr = query(&c, QueryMsg::GetDepositInfo { address: owner.to_string() });
    assert_eq!(
        qr,
        QueryResult::Jobs(vec![
            JobInfo { coin: coin(90), job_id: job_id(1) },
            JobInfo { coin: coin2(30), job_id: job_id(1) },
        ])
    );
}

#[test]
fn deposit_overflow_is_rejected() {
    let mut c = fresh_contract();
    let owner = "o";
    c.execute_deposit(owner, &vec![coin(u128::MAX)], &job_id(1)).unwrap();
    assert_eq!(
        c.execute_deposit(owner, &vec![coin(1)], &job_id(1)),
        Err(ContractError::ArithmeticOverflow)
    );
    // The failed deposit changed nothing.
    let qr = query(&c, QueryMsg::GetDepositInfo { address: owner.to_string() });
    assert_eq!(
        qr,
        QueryResult::Jobs(vec![JobInfo { coin: coin(u128::MAX), job_id: job_id(1) }])
    );
}

#[test]
fn zero_and_empty_deposits_name_their_errors() {
    let mut c = fresh_contract();
    assert_eq!(
        c.execute_deposit("a", &vec![], &job_id(1)),
        Err(ContractError::ZeroDeposit)
    );
    assert_eq!(
        c.execute_deposit("a", &vec![coin(0), coin2(0)], &job_id(1)),
        Err(ContractError::ZeroDeposit)
    );
    assert_eq!(
        c.execute_withdraw("a", &vec![]),
        Err(ContractError::EmptyWithdrawal)
    );
}

#[test]
fn job_ids_format_in_decimal() {
    assert_eq!(job_id(0), JobId("0".to_string()));
    assert_eq!(job_id(7), JobId("7".to_string()));
    assert_eq!(job_id(42), JobId("42".to_string()));
    assert_eq!(job_id(1000), JobId("1000".to_string()));
    assert_eq!(job_id(-7), JobId("-7".to_string()));
    assert_eq!(job_id(i32::MAX), JobId("2147483647".to_string()));
    assert_eq!(job_id(i32::MIN), JobId("-2147483648".to_string()));
}
