use accounter::process_csv;
use accounter::AccountHub;
use accounter::InMemoryLedger;

const INPUT: &[u8] = br###"type,   client, tx, amount
deposit, 1, 1, 1.0,
deposit,1, 2, 2    
deposit, 1, 3, .30 

deposit, 2, 4, 4.000000000000000    
deposit, 2, 5, 5.       
deposit, 2, 6, +6.0     
deposit, 2, 7, 5.0      

dispute, 1, 3,          
dispute, 1, 2           

deposit, 1, 8, + 1.2,   
deposit, 1, 30, - 1.2,
deposit_, 1, 9, 1.2   
deposit, a1, 10, 1.2  
deposit, -1, 11, 1.2  
deposit, 1.1, 12, 1.2 
deposit, 1, _13, 1.2  
deposit, 1, -14, 1.2  
deposit, 1, 15.2, 1.2 
deposit, 1, 16, _1.2   
deposit, 1, 17, 1. 2   
deposit, 1, 18, 1 .2   
deposit, 1, 19, 1.2e3, 
deposit, 1, 120, 1.00001,  
deposit, 1, 121, -1.00001,

deposit, 65536, 20, 1.2,
deposit, 1, 4294967296, 1.2
deposit, 1, 23, -1.2  
deposit, 1, 24, 922337203685477.5808  

, 1, 25, 1.2,
deposit, , 26, 1.2,
deposit, 1, , 1.2,
deposit, 1, 28, 
withdrawal, 1, 29, 
dispute, , 7
dispute, 1, 
resolve, 1,
resolve, , 7, 
chargeback, , 88
chargeback, 1, 

deposit, 10, 51, 1234567890.1234,    
deposit, 10, 42, 1.2,    
deposit, 10, 33, 0,    
dispute, 10, 45                         
withdrawal, 10, 55, 1234567890.3234,    
deposit, 10, 56, 922337203685476.5807,  
deposit, 10, 57, 0.0001,  

withdrawal, 50, 61, 0    
withdrawal, 50, 62, 1    
deposit, 50, 63, 100     
withdrawal, 50, 64, 0    
withdrawal, 50, 65, 5    
withdrawal, 50, 66, 99   
deposit, 50, 67, 200.124 
deposit, 50, 68, 1.00000 
resolve, 50, 63,         
chargeback, 50, 63,      
resolve, 50, 3,          
chargeback, 50, 2,       
dispute, 50, 62         
dispute, 50, 65          
deposit, 50, 67, 200     
dispute, 50, 63          
dispute, 50, 66          
dispute, 50, 63,         
resolve, 50, 63,         
chargeback, 50, 63,      
resolve, 50, 63,         
dispute, 50, 63,         
chargeback, 50, 63,      
chargeback, 50, 63,      
deposit, 50, 71, 200,    
withdrawal, 50, 72, 1,   
chargeback 50, 67        

dispute, 1, 3,           
withdrawal, 1, 80, 1.1   
withdrawal, 1, 80, 0.8   
chargeback, 1, 3         
chargeback, 1, 2         
dispute, 1, 1            
chargeback, 1, 1         

dispute, 2, 5,
"###;

const OUTPUT: &[u8] = br###"client,available,held,total,locked
1, -0.8, 0, -0.8, true
2, 15, 5, 20, false
10, 922337203685477.5807, 0, 922337203685477.5807, false
50, 196.124, 0, 196.124, true
"###;

#[test]
fn full_integration_test() {
    let lines: Vec<String> = std::str::from_utf8(INPUT)
        .unwrap()
        .lines()
        .map(String::from)
        .collect();
    let summary = process_csv(
        AccountHub::new(|_client_id| InMemoryLedger::connect()),
        &lines,
    );
    assert_eq!(summary.as_bytes(), OUTPUT);
}
