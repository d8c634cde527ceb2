// The name-resolution record model is declared data with no executable
// logic, so there is nothing of it to exercise beyond this placeholder.

#[test]
fn test_something() {}
