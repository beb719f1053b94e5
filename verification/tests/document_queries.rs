use html_query::{find, select, Dom, Element, Node};

const TEST_HTML: &str = r#"<div id="myDiv">
  <h1 class="title">Title</h1>
  <p class="intro">Introduction</p>
    <ul>
      <li class="item">Item 1</li>
      <li class="item extra">Item 2</li>
    </ul>
</div>"#;

fn node_from(node: &html_parser::Node) -> Node {
    match node {
        html_parser::Node::Text(text) => Node::Text(text.clone()),
        html_parser::Node::Comment(text) => Node::Comment(text.clone()),
        html_parser::Node::Element(element) => Node::Element(Element {
            id: element.id.clone(),
            name: element.name.clone(),
            classes: element.classes.clone(),
            children: element.children.iter().map(node_from).collect(),
        }),
    }
}

fn parse_document(html: &str) -> Dom {
    let parsed = html_parser::Dom::parse(html).unwrap();
    Dom { children: parsed.children.iter().map(node_from).collect() }
}

#[test]
fn test_select() {
    let dom = parse_document(TEST_HTML);

    // *
    let elements = select(&dom, "*").unwrap();
    assert_eq!(elements.len(), 6);

    //  "#myDiv"            <div id="myDiv">...</div>
    let elements = select(&dom, "#myDiv").unwrap();
    assert_eq!(elements.len(), 1);
    assert_eq!(elements[0].name, "div");
    assert_eq!(elements[0].id, Some("myDiv".to_string()));

    //  ".title"            <h1 class="title">...</h1>
    let elements = select(&dom, ".title").unwrap();
    assert_eq!(elements.len(), 1);
    assert_eq!(elements[0].name, "h1");
    assert!(elements[0].classes.contains(&"title".to_string()));

    //  "h1"                <h1 class="title">...</h1>
    let elements = select(&dom, "h1").unwrap();
    assert_eq!(elements.len(), 1);
    assert_eq!(elements[0].name, "h1");
    assert!(elements[0].classes.contains(&"title".to_string()));

    //  "ul"                <ul>...</ul>
    let elements = select(&dom, "ul").unwrap();
    assert_eq!(elements.len(), 1);
    assert_eq!(elements[0].name, "ul");

    //  "li"                <li class="item">Item 1</li>, <li class="item extra">Item 2</li>
    let elements = select(&dom, "li").unwrap();
    assert_eq!(elements.len(), 2);

    assert_eq!(elements[0].name, "li");
    assert!(elements[0].classes.contains(&"item".to_string()));
    assert_eq!(elements[0].children[0], Node::Text("Item 1".to_string()));

    assert_eq!(elements[1].name, "li");
    assert!(elements[1].classes.contains(&"item".to_string()));
    assert_eq!(elements[1].children[0], Node::Text("Item 2".to_string()));

    //  "#myDiv,h1"         <div id="myDiv">...</div>, <h1 class="title">...</h1>
    let elements = select(&dom, "#myDiv,h1").unwrap();
    assert_eq!(elements.len(), 2);

    assert_eq!(elements[0].name, "div");
    assert_eq!(elements[0].id, Some("myDiv".to_string()));

    assert_eq!(elements[1].name, "h1");
    assert!(elements[1].classes.contains(&"title".to_string()));

    //  "h1,p"             <h1 class="title">...</h1>, <p class="intro">...</p>
    let elements = select(&dom, "h1,p").unwrap();
    assert_eq!(elements.len(), 2);

    assert_eq!(elements[0].name, "h1");
    assert!(elements[0].classes.contains(&"title".to_string()));
    assert_eq!(elements[0].children[0], Node::Text("Title".to_string()));

    assert_eq!(elements[1].name, "p");
    assert!(elements[1].classes.contains(&"intro".to_string()));
    assert_eq!(
        elements[1].children[0],
        Node::Text("Introduction".to_string())
    );

    //  "ul,li"            <ul>...</ul>, <li class="item">Item 1</li>, <li class="item extra">Item 2</li>
    let elements = select(&dom, "ul,li").unwrap();
    assert_eq!(elements.len(), 3);

    assert_eq!(elements[0].name, "ul");

    assert_eq!(elements[1].name, "li");
    assert!(elements[1].classes.contains(&"item".to_string()));
    assert_eq!(elements[1].children[0], Node::Text("Item 1".to_string()));

    assert_eq!(elements[2].name, "li");
    assert!(elements[2].classes.contains(&"item".to_string()));
    assert_eq!(elements[2].children[0], Node::Text("Item 2".to_string()));

    //  "#myDiv .item"      <li class="item">Item 1</li>, <li class="item extra">Item 2</li>
    let elements = select(&dom, "#myDiv .item").unwrap();
    assert_eq!(elements.len(), 2);

    assert_eq!(elements[0].name, "li");
    assert!(elements[0].classes.contains(&"item".to_string()));
    assert_eq!(elements[0].children[0], Node::Text("Item 1".to_string()));

    assert_eq!(elements[1].name, "li");
    assert!(elements[1].classes.contains(&"item".to_string()));
    assert_eq!(elements[1].children[0], Node::Text("Item 2".to_string()));

    //  "#myDiv h1"         <h1 class="title">...</h1>
    let elements = select(&dom, "#myDiv h1").unwrap();
    assert_eq!(elements.len(), 1);
    assert_eq!(elements[0].name, "h1");
    assert!(elements[0].classes.contains(&"title".to_string()));

    //  "li.item"           <li class="item">Item 1</li>, <li class="item extra">Item 2</li>
    let elements = select(&dom, "li.item").unwrap();
    assert_eq!(elements.len(), 2);

    assert_eq!(elements[0].name, "li");
    assert!(elements[0].classes.contains(&"item".to_string()));
    assert_eq!(elements[0].children[0], Node::Text("Item 1".to_string()));

    assert_eq!(elements[1].name, "li");
    assert!(elements[1].classes.contains(&"item".to_string()));
    assert_eq!(elements[1].children[0], Node::Text("Item 2".to_string()));

    //  "#myDiv li.item"    <li class="item">Item 1</li>, <li class="item extra">Item 2</li>
    let elements = select(&dom, "#myDiv li.item").unwrap();
    assert_eq!(elements.len(), 2);

    assert_eq!(elements[0].name, "li");
    assert!(elements[0].classes.contains(&"item".to_string()));
    assert_eq!(elements[0].children[0], Node::Text("Item 1".to_string()));

    assert_eq!(elements[1].name, "li");
    assert!(elements[1].classes.contains(&"item".to_string()));
    assert_eq!(elements[1].children[0], Node::Text("Item 2".to_string()));

    //  "#myDiv li.extra"   <li class="item extra">Item 2</li>
    let elements = select(&dom, "#myDiv li.extra").unwrap();
    assert_eq!(elements.len(), 1);

    assert_eq!(elements[0].name, "li");
    assert!(elements[0].classes.contains(&"item".to_string()));
    assert_eq!(elements[0].children[0], Node::Text("Item 2".to_string()));

    //  "li.item.extra"     <li class="item extra">Item 2</li>
    let elements = select(&dom, "li.item.extra").unwrap();
    assert_eq!(elements.len(), 1);

    assert_eq!(elements[0].name, "li");
    assert!(elements[0].classes.contains(&"item".to_string()));
    assert_eq!(elements[0].children[0], Node::Text("Item 2".to_string()));

    //  ".item.extra"       <li class="item extra">Item 2</li>
    let elements = select(&dom, ".item.extra").unwrap();
    assert_eq!(elements.len(), 1);

    assert_eq!(elements[0].name, "li");
    assert!(elements[0].classes.contains(&"item".to_string()));
    assert_eq!(elements[0].children[0], Node::Text("Item 2".to_string()));
}

#[test]
fn test_find() {
    let dom = parse_document(TEST_HTML);

    let dom_elements = select(&dom, "ul").unwrap();
    assert_eq!(dom_elements.len(), 1);
    assert_eq!(dom_elements[0].name, "ul");

    let child_element = dom_elements[0];

    // *
    let elements = find(child_element, "*").unwrap();
    assert_eq!(elements.len(), 3);

    // p
    let elements = find(child_element, "p").unwrap();
    assert!(elements.is_empty());

    // li
    let elements = find(child_element, "li").unwrap();
    assert_eq!(elements.len(), 2);

    assert_eq!(elements[0].name, "li");
    assert!(elements[0].classes.contains(&"item".to_string()));
    assert_eq!(elements[0].children[0], Node::Text("Item 1".to_string()));

    assert_eq!(elements[1].name, "li");
    assert!(elements[1].classes.contains(&"item".to_string()));
    assert_eq!(elements[1].children[0], Node::Text("Item 2".to_string()));

    // .item
    let elements = find(child_element, ".item").unwrap();
    assert_eq!(elements.len(), 2);

    assert_eq!(elements[0].name, "li");
    assert!(elements[0].classes.contains(&"item".to_string()));
    assert_eq!(elements[0].children[0], Node::Text("Item 1".to_string()));

    assert_eq!(elements[1].name, "li");
    assert!(elements[1].classes.contains(&"item".to_string()));
    assert_eq!(elements[1].children[0], Node::Text("Item 2".to_string()));

    // li,.item
    let elements = find(child_element, "li,.item").unwrap();
    assert_eq!(elements.len(), 2);

    assert_eq!(elements[0].name, "li");
    assert!(elements[0].classes.contains(&"item".to_string()));
    assert_eq!(elements[0].children[0], Node::Text("Item 1".to_string()));

    assert_eq!(elements[1].name, "li");
    assert!(elements[1].classes.contains(&"item".to_string()));
    assert_eq!(elements[1].children[0], Node::Text("Item 2".to_string()));
}
