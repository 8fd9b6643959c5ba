use expr_resolver::compile;
use expr_resolver::interpreter::Step;

/// Runs a compiled expression on a stack of `f64`, with the factorial of
/// whole numbers only.
fn resolve(input: String) -> Result<f64, String> {
    let steps = compile(input)?;
    let mut stack: Vec<f64> = Vec::new();
    for step in &steps {
        match step {
            Step::Push(literal) => stack.push(literal.parse().unwrap()),
            Step::Negate => {
                let value = stack.pop().unwrap();
                stack.push(-value);
            }
            Step::Factorial => {
                let value = stack.pop().unwrap();
                assert_eq!(value.fract(), 0.0);
                let mut product = 1.0;
                let mut k = 2.0;
                while k <= value {
                    product *= k;
                    k += 1.0;
                }
                stack.push(product);
            }
            binary => {
                let right = stack.pop().unwrap();
                let left = stack.pop().unwrap();
                stack.push(match binary {
                    Step::Add => left + right,
                    Step::Subtract => left - right,
                    Step::Multiply => left * right,
                    _ => left / right,
                });
            }
        }
    }
    assert_eq!(stack.len(), 1);
    Ok(stack[0])
}

#[test]
fn basic_resolution() {
    assert_eq!(resolve("3!".to_string()), Ok(6.0));
    assert_eq!(resolve("-3!".to_string()), Ok(-6.0));
    assert_eq!(
        compile("3.2!".to_string()),
        Ok(vec![Step::Push("3.2".to_string()), Step::Factorial])
    );
    assert_eq!(resolve("3--3!".to_string()), Ok(9.0));
    assert_eq!(resolve("-2".to_string()), Ok(-2.0));
    assert_eq!(resolve("2--2".to_string()), Ok(4.0));
    assert_eq!(resolve("2+2*2*2*2+2".to_string()), Ok(20.0));
    assert_eq!(resolve("-2/2+2*2".to_string()), Ok(3.0));
}

#[test]
fn documented_examples() {
    assert_eq!(resolve("2+2".to_string()), Ok(4.0));
    assert_eq!(resolve("2+2*2".to_string()), Ok(6.0));
    assert_eq!(resolve("--2".to_string()), Ok(2.0));
    assert_eq!(resolve("2+-2".to_string()), Ok(0.0));
    assert_eq!(resolve("20".to_string()), Ok(20.0));
    assert!(resolve("2&2".to_string()).is_err());
    assert!(resolve("2)2".to_string()).is_err());
}

#[test]
fn division_by_zero_is_no_error() {
    assert_eq!(resolve("1/0".to_string()), Ok(f64::INFINITY));
    assert!(resolve("0/0".to_string()).unwrap().is_nan());
}
